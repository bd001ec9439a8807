//! Set intersection over name collections: shared column names and shared
//! identity keys are both computed here.

use vstd::prelude::*;
use crate::catalog::has_duplicate;
use crate::codec::str_eq;

verus! {

/// Whether some entry of `v` views equal to `s`.
pub fn contains_string(v: &Vec<String>, s: &str) -> (r: bool)
    ensures
        r == v.deep_view().contains(s@),
{
    let mut i: usize = 0;
    while i < v.len()
        invariant
            i <= v@.len(),
            v.deep_view().len() == v@.len(),
            forall|j: int| 0 <= j < i ==> v.deep_view()[j] != s@,
        decreases v@.len() - i,
    {
        if str_eq(v[i].as_str(), s) {
            proof {
                assert(v.deep_view()[i as int] == s@);
            }
            return true;
        }
        i = i + 1;
    }
    proof {
        if v.deep_view().contains(s@) {
            let w = choose|w: int| 0 <= w < v.deep_view().len() && v.deep_view()[w] == s@;
            assert(v.deep_view()[w] != s@);
        }
    }
    false
}

/// The members of `a` that `b` also holds, in `a`'s order. On duplicate-free
/// inputs this is their set intersection, read off as a sequence.
pub open spec fn spec_intersect(a: Seq<Seq<char>>, b: Seq<Seq<char>>) -> Seq<Seq<char>> {
    a.filter(|x: Seq<char>| b.contains(x))
}

/// Computes the intersection of two name collections: every member of `a`
/// that `b` also holds, kept in `a`'s order. Pure and total; an empty input on
/// either side yields an empty result.
pub fn intersect(a: &Vec<String>, b: &Vec<String>) -> (r: Vec<String>)
    ensures
        r.deep_view() == spec_intersect(a.deep_view(), b.deep_view()),
{
    let ghost av = a.deep_view();
    let ghost bv = b.deep_view();
    let ghost pred = |x: Seq<char>| bv.contains(x);
    let mut out: Vec<String> = Vec::new();
    proof {
        reveal(Seq::filter);
        assert(av.take(0).filter(pred) =~= Seq::<Seq<char>>::empty());
    }
    let mut i: usize = 0;
    while i < a.len()
        invariant
            i <= a@.len(),
            av == a.deep_view(),
            bv == b.deep_view(),
            pred == (|x: Seq<char>| bv.contains(x)),
            av.len() == a@.len(),
            out.deep_view() == av.take(i as int).filter(pred),
        decreases a@.len() - i,
    {
        let ghost prev = av.take(i as int);
        let keep = contains_string(b, a[i].as_str());
        proof {
            reveal(Seq::filter);
            assert(av.take(i + 1).drop_last() =~= prev);
            assert(av.take(i + 1).last() == av[i as int]);
        }
        if keep {
            out.push(a[i].clone());
        }
        proof {
            reveal(Seq::filter);
            assert(out.deep_view() =~= av.take(i + 1).filter(pred));
        }
        i = i + 1;
    }
    proof {
        assert(av.take(av.len() as int) =~= av);
    }
    out
}

/// Filtering by a predicate that every member satisfies keeps the whole
/// sequence.
proof fn lemma_filter_all_kept(s: Seq<Seq<char>>, pred: spec_fn(Seq<char>) -> bool)
    requires
        forall|i: int| 0 <= i < s.len() ==> pred(s[i]),
    ensures
        s.filter(pred) == s,
    decreases s.len(),
{
    reveal(Seq::filter);
    if s.len() == 0 {
        assert(s.filter(pred) =~= s);
    } else {
        assert(forall|i: int| 0 <= i < s.drop_last().len() ==> pred(#[trigger] s.drop_last()[i]));
        lemma_filter_all_kept(s.drop_last(), pred);
        assert(pred(s.last()));
        assert(s.drop_last().push(s.last()) =~= s);
    }
}

/// Intersecting a collection with itself returns it unchanged.
pub proof fn lemma_intersect_self(a: Seq<Seq<char>>)
    ensures
        spec_intersect(a, a) == a,
{
    lemma_filter_all_kept(a, |x: Seq<char>| a.contains(x));
}

/// Intersecting with an empty collection, on either side, yields an empty
/// result.
pub proof fn lemma_intersect_empty(a: Seq<Seq<char>>)
    ensures
        spec_intersect(a, Seq::<Seq<char>>::empty()) == Seq::<Seq<char>>::empty(),
        spec_intersect(Seq::<Seq<char>>::empty(), a) == Seq::<Seq<char>>::empty(),
    decreases a.len(),
{
    reveal(Seq::filter);
    if a.len() == 0 {
        assert(spec_intersect(a, Seq::<Seq<char>>::empty()) =~= Seq::<Seq<char>>::empty());
    } else {
        lemma_intersect_empty(a.drop_last());
        assert(a.drop_last().filter(|x: Seq<char>| Seq::<Seq<char>>::empty().contains(x))
            == Seq::<Seq<char>>::empty());
    }
    assert(spec_intersect(Seq::<Seq<char>>::empty(), a) =~= Seq::<Seq<char>>::empty());
}

/// Read as sets, the intersection holds exactly the names present in both
/// collections.
pub proof fn lemma_intersect_set(a: Seq<Seq<char>>, b: Seq<Seq<char>>)
    ensures
        spec_intersect(a, b).to_set() == a.to_set().intersect(b.to_set()),
{
    broadcast use vstd::seq_lib::group_filter_ensures;

    let pred = |x: Seq<char>| b.contains(x);
    assert forall|x: Seq<char>|
        spec_intersect(a, b).to_set().contains(x) implies a.to_set().contains(x)
        && b.to_set().contains(x) by {
        a.lemma_filter_contains_rev(pred, x);
        let w = choose|w: int| 0 <= w < a.filter(pred).len() && a.filter(pred)[w] == x;
        assert(pred(a.filter(pred)[w]));
    }
    assert forall|x: Seq<char>|
        a.to_set().contains(x) && b.to_set().contains(x) implies spec_intersect(
        a,
        b,
    ).to_set().contains(x) by {
        let w = choose|w: int| 0 <= w < a.len() && a[w] == x;
        assert(pred(a[w]));
        assert(a.filter(pred).contains(a[w]));
    }
    assert(spec_intersect(a, b).to_set() =~= a.to_set().intersect(b.to_set()));
}

/// A name is in the intersection exactly when both collections hold it.
pub proof fn lemma_intersect_contains(a: Seq<Seq<char>>, b: Seq<Seq<char>>, x: Seq<char>)
    ensures
        spec_intersect(a, b).contains(x) <==> (a.contains(x) && b.contains(x)),
{
    lemma_intersect_set(a, b);
    assert(spec_intersect(a, b).to_set().contains(x) == spec_intersect(a, b).contains(x));
    assert(a.to_set().contains(x) == a.contains(x));
    assert(b.to_set().contains(x) == b.contains(x));
}

/// Intersecting keeps a duplicate-free collection duplicate-free: the result
/// is a subsequence of the left argument.
pub proof fn lemma_intersect_no_dup(a: Seq<Seq<char>>, b: Seq<Seq<char>>)
    requires
        !has_duplicate(a),
    ensures
        !has_duplicate(spec_intersect(a, b)),
    decreases a.len(),
{
    reveal(Seq::filter);
    let pred = |x: Seq<char>| b.contains(x);
    if a.len() == 0 {
    } else {
        assert forall|i: int, j: int|
            #![trigger a.drop_last()[i], a.drop_last()[j]]
            0 <= i < j < a.drop_last().len() implies a.drop_last()[i] != a.drop_last()[j] by {
            assert(a[i] == a.drop_last()[i]);
            assert(a[j] == a.drop_last()[j]);
        }
        lemma_intersect_no_dup(a.drop_last(), b);
        let sub = a.drop_last().filter(pred);
        if pred(a.last()) {
            assert(a.filter(pred) == sub.push(a.last()));
            if has_duplicate(a.filter(pred)) {
                let (t1, t2) = choose|t1: int, t2: int|
                    0 <= t1 < t2 < a.filter(pred).len() && a.filter(pred)[t1] == a.filter(
                        pred,
                    )[t2];
                if t2 < sub.len() {
                    assert(sub[t1] == a.filter(pred)[t1]);
                    assert(sub[t2] == a.filter(pred)[t2]);
                    assert(has_duplicate(sub));
                } else {
                    assert(a.filter(pred)[t2] == a.last());
                    assert(sub[t1] == a.last());
                    assert(sub.contains(a.last()));
                    a.drop_last().lemma_filter_contains_rev(pred, a.last());
                    let w = choose|w: int|
                        0 <= w < a.drop_last().len() && a.drop_last()[w] == a.last();
                    assert(a[w] == a[a.len() - 1]);
                    assert(has_duplicate(a));
                }
            }
        } else {
            assert(a.filter(pred) == sub);
        }
    }
}

/// Intersection is commutative on sets: either order of arguments yields the
/// same set of names.
pub proof fn lemma_intersect_commutative(a: Seq<Seq<char>>, b: Seq<Seq<char>>)
    ensures
        spec_intersect(a, b).to_set() == spec_intersect(b, a).to_set(),
{
    lemma_intersect_set(a, b);
    lemma_intersect_set(b, a);
    assert(a.to_set().intersect(b.to_set()) =~= b.to_set().intersect(a.to_set()));
}

} // verus!
