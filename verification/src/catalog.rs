//! The column catalog: the decoded header names of a table and the
//! name-to-ordinal mapping they induce.

use vstd::prelude::*;
use crate::codec::{decode_row, spec_decode_row, str_eq};
use crate::descriptor::TableDescriptor;
use crate::error::StructuralError;

verus! {

/// The decoded names of a table's header line, in left-to-right order.
/// Meaningful only when the table has at least one line.
pub open spec fn spec_header_names(
    lines: Seq<Seq<char>>,
    delimiter: char,
    quote: Option<char>,
) -> Seq<Seq<char>> {
    spec_decode_row(lines[0], delimiter, quote)
}

/// Whether two entries of `names` are equal.
pub open spec fn has_duplicate(names: Seq<Seq<char>>) -> bool {
    exists|i: int, j: int| 0 <= i < j < names.len() && names[i] == names[j]
}

/// The earliest name that repeats an earlier one. Meaningful only under
/// [`has_duplicate`].
pub open spec fn first_duplicate(names: Seq<Seq<char>>) -> Seq<char>
    decreases names.len(),
{
    if !has_duplicate(names) {
        Seq::empty()
    } else if has_duplicate(names.drop_last()) {
        first_duplicate(names.drop_last())
    } else {
        names.last()
    }
}

/// If the names before position `j` are duplicate-free and `names[j]` repeats
/// one of them, then `names[j]` is the first duplicate of the whole sequence.
pub proof fn lemma_first_duplicate_at(names: Seq<Seq<char>>, j: int)
    requires
        0 <= j < names.len(),
        !has_duplicate(names.take(j)),
        exists|i: int| 0 <= i < j && names[i] == names[j],
    ensures
        has_duplicate(names),
        first_duplicate(names) == names[j],
    decreases names.len(),
{
    let i = choose|i: int| 0 <= i < j && names[i] == names[j];
    assert(has_duplicate(names));
    if j + 1 == names.len() {
        assert(names.drop_last() =~= names.take(j));
    } else {
        assert(names.drop_last().take(j) =~= names.take(j));
        assert(0 <= i < j && names.drop_last()[i] == names.drop_last()[j]);
        lemma_first_duplicate_at(names.drop_last(), j);
        assert(has_duplicate(names.drop_last()));
    }
}

/// Whether building a catalog for this table succeeds: the table has a header
/// line and its decoded names are pairwise distinct.
pub open spec fn catalog_ok(lines: Seq<Seq<char>>, delimiter: char, quote: Option<char>) -> bool {
    lines.len() > 0 && !has_duplicate(spec_header_names(lines, delimiter, quote))
}

/// The exact error a failed catalog build reports: `HeaderMissing` for an
/// empty table, otherwise `DuplicateColumn` carrying the first repeated name.
pub open spec fn catalog_err(
    lines: Seq<Seq<char>>,
    delimiter: char,
    quote: Option<char>,
    e: StructuralError,
) -> bool {
    if lines.len() == 0 {
        e == StructuralError::HeaderMissing
    } else {
        e matches StructuralError::DuplicateColumn(n) && n@ == first_duplicate(
            spec_header_names(lines, delimiter, quote),
        )
    }
}

/// The full contract of [`build_catalog`]: success exactly under
/// [`catalog_ok`], with the catalog holding the decoded header names, and
/// failure reporting exactly the error of [`catalog_err`].
pub open spec fn catalog_post(
    lines: Seq<Seq<char>>,
    delimiter: char,
    quote: Option<char>,
    r: Result<ColumnCatalog, StructuralError>,
) -> bool {
    match r {
        Ok(c) => catalog_ok(lines, delimiter, quote) && c@ == spec_header_names(
            lines,
            delimiter,
            quote,
        ),
        Err(e) => !catalog_ok(lines, delimiter, quote) && catalog_err(lines, delimiter, quote, e),
    }
}

/// The column names of one table, in header order, pairwise distinct. Built
/// once per table per run and read-only afterward; the ordinal of a name is
/// its position in `names`.
#[derive(Debug, PartialEq, Eq)]
pub struct ColumnCatalog {
    pub names: Vec<String>,
}

impl View for ColumnCatalog {
    type V = Seq<Seq<char>>;

    open spec fn view(&self) -> Seq<Seq<char>> {
        self.names.deep_view()
    }
}

impl ColumnCatalog {
    /// Well-formedness: no two columns share a name, so every name maps to
    /// exactly one ordinal.
    pub open spec fn wf(self) -> bool {
        !has_duplicate(self@)
    }

    /// The ordinal of the named column: the position of its first (under
    /// [`ColumnCatalog::wf`], only) occurrence, or `None` when the catalog
    /// does not hold the name.
    pub fn ordinal_of(&self, name: &str) -> (r: Option<usize>)
        ensures
            match r {
                Some(i) => i < self@.len() && self@[i as int] == name@ && (forall|j: int|
                    0 <= j < i ==> self@[j] != name@),
                None => !self@.contains(name@),
            },
    {
        let mut i: usize = 0;
        while i < self.names.len()
            invariant
                i <= self@.len(),
                self@.len() == self.names@.len(),
                forall|j: int| 0 <= j < i ==> self@[j] != name@,
            decreases self@.len() - i,
        {
            if str_eq(self.names[i].as_str(), name) {
                return Some(i);
            }
            i = i + 1;
        }
        proof {
            if self@.contains(name@) {
                let w = choose|w: int| 0 <= w < self@.len() && self@[w] == name@;
                assert(self@[w] != name@);
            }
        }
        None
    }
}

/// Reads the table's header line (its first line), decodes it with the row
/// codec, and assigns each name its left-to-right ordinal. Fails with
/// `HeaderMissing` on an empty table and with `DuplicateColumn` when a decoded
/// name repeats an earlier one.
pub fn build_catalog(desc: &TableDescriptor, lines: &Vec<String>) -> (r: Result<
    ColumnCatalog,
    StructuralError,
>)
    ensures
        catalog_post(lines.deep_view(), desc.delimiter, desc.quote, r),
        r matches Ok(c) ==> c.wf(),
{
    if lines.len() == 0 {
        return Err(StructuralError::HeaderMissing);
    }
    let names = decode_row(lines[0].as_str(), desc.delimiter, desc.quote);
    let ghost dv = names.deep_view();
    proof {
        assert(lines.deep_view()[0] == lines@[0]@);
        assert(dv == spec_header_names(lines.deep_view(), desc.delimiter, desc.quote));
    }
    let mut j: usize = 0;
    while j < names.len()
        invariant
            j <= names@.len(),
            dv == names.deep_view(),
            dv.len() == names@.len(),
            dv == spec_header_names(lines.deep_view(), desc.delimiter, desc.quote),
            lines.deep_view().len() > 0,
            !has_duplicate(dv.take(j as int)),
        decreases names@.len() - j,
    {
        let mut i: usize = 0;
        while i < j
            invariant
                i <= j < names@.len(),
                dv == names.deep_view(),
                dv.len() == names@.len(),
                dv == spec_header_names(lines.deep_view(), desc.delimiter, desc.quote),
                lines.deep_view().len() > 0,
                !has_duplicate(dv.take(j as int)),
                forall|t: int| 0 <= t < i ==> dv[t] != dv[j as int],
            decreases j - i,
        {
            if str_eq(names[i].as_str(), names[j].as_str()) {
                proof {
                    assert(dv[i as int] == dv[j as int]);
                    assert(exists|t: int| 0 <= t < j && dv[t] == dv[j as int]);
                    lemma_first_duplicate_at(dv, j as int);
                }
                return Err(StructuralError::DuplicateColumn(names[j].clone()));
            }
            i = i + 1;
        }
        proof {
            assert forall|a: int, b: int|
                #![trigger dv.take(j + 1)[a], dv.take(j + 1)[b]]
                0 <= a < b < dv.take(j + 1).len() implies !(dv.take(j + 1)[a] == dv.take(j + 1)[b])
            by {
                if b == j {
                    assert(dv[a] != dv[j as int]);
                } else {
                    assert(!(dv.take(j as int)[a] == dv.take(j as int)[b]));
                }
            }
        }
        j = j + 1;
    }
    proof {
        assert(dv.take(names@.len() as int) =~= dv);
    }
    Ok(ColumnCatalog { names })
}

/// Building a catalog is deterministic: any two results that the builder's
/// contract admits for the same table agree — on success the same names in
/// the same order, on failure the same error.
pub proof fn lemma_build_catalog_deterministic(
    lines: Seq<Seq<char>>,
    delimiter: char,
    quote: Option<char>,
    r1: Result<ColumnCatalog, StructuralError>,
    r2: Result<ColumnCatalog, StructuralError>,
)
    requires
        catalog_post(lines, delimiter, quote, r1),
        catalog_post(lines, delimiter, quote, r2),
    ensures
        r1 is Ok <==> r2 is Ok,
        r1 is Ok && r2 is Ok ==> r1->Ok_0@ == r2->Ok_0@,
        r1 is Err && r2 is Err ==> {
            &&& (r1->Err_0 is HeaderMissing <==> r2->Err_0 is HeaderMissing)
            &&& (r1->Err_0 is DuplicateColumn && r2->Err_0 is DuplicateColumn
                ==> r1->Err_0->DuplicateColumn_0@ == r2->Err_0->DuplicateColumn_0@)
        },
{
}

} // verus!
