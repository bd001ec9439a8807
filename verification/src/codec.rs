//! The row codec: splitting one raw line into fields on a delimiter
//! character, with an optional symmetric quote trim, and joining fields back
//! into a line.

use vstd::prelude::*;

verus! {

/// One trailing line terminator (`"\n"` or `"\r\n"`) removed, if present.
pub open spec fn strip_eol(s: Seq<char>) -> Seq<char> {
    if s.len() > 0 && s.last() == '\n' {
        let t = s.drop_last();
        if t.len() > 0 && t.last() == '\r' {
            t.drop_last()
        } else {
            t
        }
    } else {
        s
    }
}

/// The pieces of `s` between occurrences of the delimiter `d`. Every
/// occurrence separates, so `k` occurrences yield `k + 1` fields; an empty
/// input yields one empty field.
pub open spec fn split_on(s: Seq<char>, d: char) -> Seq<Seq<char>>
    decreases s.len(),
{
    if s.len() == 0 {
        seq![Seq::<char>::empty()]
    } else if s.last() == d {
        split_on(s.drop_last(), d).push(Seq::<char>::empty())
    } else {
        let r = split_on(s.drop_last(), d);
        r.update(r.len() - 1, r.last().push(s.last()))
    }
}

/// At most one leading and one trailing occurrence of the quote `q` removed.
pub open spec fn trim_quote(f: Seq<char>, q: char) -> Seq<char> {
    let a = if f.len() > 0 && f.first() == q {
        f.drop_first()
    } else {
        f
    };
    if a.len() > 0 && a.last() == q {
        a.drop_last()
    } else {
        a
    }
}

/// The configured quote trim: [`trim_quote`] when a quote character is
/// configured, the field unchanged otherwise.
pub open spec fn apply_quote(f: Seq<char>, quote: Option<char>) -> Seq<char> {
    match quote {
        Some(q) => trim_quote(f, q),
        None => f,
    }
}

/// The decoded fields of one raw line: the line terminator stripped, the line
/// split on the delimiter, and each field quote-trimmed.
pub open spec fn spec_decode_row(raw: Seq<char>, delimiter: char, quote: Option<char>) -> Seq<
    Seq<char>,
> {
    split_on(strip_eol(raw), delimiter).map_values(|f: Seq<char>| apply_quote(f, quote))
}

/// Splitting always yields at least one field.
pub proof fn lemma_split_on_len(s: Seq<char>, d: char)
    ensures
        split_on(s, d).len() >= 1,
    decreases s.len(),
{
    if s.len() > 0 {
        lemma_split_on_len(s.drop_last(), d);
    }
}

/// Character-by-character string equality; `true` exactly when the two views
/// agree.
pub fn str_eq(a: &str, b: &str) -> (r: bool)
    ensures
        r == (a@ == b@),
{
    let na = a.unicode_len();
    let nb = b.unicode_len();
    if na != nb {
        return false;
    }
    let mut i: usize = 0;
    while i < na
        invariant
            i <= na,
            na == a@.len(),
            na == b@.len(),
            forall|j: int| 0 <= j < i ==> a@[j] == b@[j],
        decreases na - i,
    {
        if a.get_char(i) != b.get_char(i) {
            return false;
        }
        i = i + 1;
    }
    proof {
        assert(a@ =~= b@);
    }
    true
}

/// One field of `raw`, the characters from `start` (inclusive) to `end`
/// (exclusive), with the configured quote trim applied.
fn extract_field(raw: &str, start: usize, end: usize, quote: Option<char>) -> (r: String)
    requires
        start <= end <= raw@.len(),
    ensures
        r@ == apply_quote(raw@.subrange(start as int, end as int), quote),
{
    match quote {
        None => raw.substring_char(start, end).to_owned(),
        Some(q) => {
            let ghost f = raw@.subrange(start as int, end as int);
            let mut s = start;
            if s < end && raw.get_char(s) == q {
                s = s + 1;
            }
            proof {
                let a = if f.len() > 0 && f.first() == q {
                    f.drop_first()
                } else {
                    f
                };
                assert(raw@.subrange(s as int, end as int) =~= a);
            }
            let mut e = end;
            if s < e && raw.get_char(e - 1) == q {
                e = e - 1;
            }
            let r = raw.substring_char(s, e).to_owned();
            proof {
                assert(raw@.subrange(s as int, e as int) =~= trim_quote(f, q));
            }
            r
        },
    }
}

/// One field as it stands in an encoded line: wrapped in the quote character
/// when a quote is configured, bare otherwise.
pub open spec fn quote_wrap(f: Seq<char>, quote: Option<char>) -> Seq<char> {
    match quote {
        Some(q) => seq![q] + f + seq![q],
        None => f,
    }
}

/// The fields joined back into one line: each field quote-wrapped as
/// configured, with the delimiter between consecutive fields. No fields yield
/// an empty line.
pub open spec fn join_fields(fields: Seq<Seq<char>>, d: char, quote: Option<char>) -> Seq<char>
    decreases fields.len(),
{
    if fields.len() == 0 {
        Seq::empty()
    } else if fields.len() == 1 {
        quote_wrap(fields[0], quote)
    } else {
        join_fields(fields.drop_last(), d, quote) + seq![d] + quote_wrap(fields.last(), quote)
    }
}

/// Relies on String::push: appends exactly the one given character.
#[verifier::external_body]
fn push_char(s: &mut String, c: char)
    ensures
        final(s)@ == old(s)@.push(c),
{
    s.push(c);
}

/// Joins fields back into one raw line with the given delimiter and quote:
/// the inverse direction of [`decode_row`].
pub fn encode_row(fields: &Vec<String>, delimiter: char, quote: Option<char>) -> (r: String)
    ensures
        r@ == join_fields(fields.deep_view(), delimiter, quote),
{
    let ghost dv = fields.deep_view();
    let mut out = String::new();
    let mut i: usize = 0;
    while i < fields.len()
        invariant
            i <= fields@.len(),
            dv == fields.deep_view(),
            dv.len() == fields@.len(),
            out@ == join_fields(dv.take(i as int), delimiter, quote),
        decreases fields@.len() - i,
    {
        let ghost prev = out@;
        if i > 0 {
            push_char(&mut out, delimiter);
        }
        if let Some(q) = quote {
            push_char(&mut out, q);
        }
        out.append(fields[i].as_str());
        if let Some(q) = quote {
            push_char(&mut out, q);
        }
        proof {
            assert(dv.take(i + 1).drop_last() =~= dv.take(i as int));
            assert(dv.take(i + 1).last() == dv[i as int]);
            if i == 0 {
                assert(out@ =~= quote_wrap(dv[0], quote));
                assert(join_fields(dv.take(1), delimiter, quote) == quote_wrap(
                    dv.take(1)[0],
                    quote,
                ));
            } else {
                assert(out@ =~= join_fields(dv.take(i as int), delimiter, quote) + seq![delimiter]
                    + quote_wrap(dv[i as int], quote));
            }
        }
        i = i + 1;
    }
    proof {
        assert(dv.take(dv.len() as int) =~= dv);
    }
    out
}

/// A quote-wrapped field holds no delimiter when the field itself holds none
/// and the quote is not the delimiter.
proof fn lemma_wrap_no_delim(f: Seq<char>, d: char, quote: Option<char>)
    requires
        !f.contains(d),
        quote matches Some(q) ==> q != d,
    ensures
        !quote_wrap(f, quote).contains(d),
{
    match quote {
        None => {},
        Some(q) => {
            let w = quote_wrap(f, quote);
            if w.contains(d) {
                let t = choose|t: int| 0 <= t < w.len() && w[t] == d;
                assert(w[0] == q);
                assert(w[w.len() - 1] == q);
                if 0 < t < w.len() - 1 {
                    assert(f[t - 1] == d);
                    assert(f.contains(d));
                }
            }
        },
    }
}

/// Splitting a line that holds no delimiter yields exactly that one field.
proof fn lemma_split_no_delim(s: Seq<char>, d: char)
    requires
        !s.contains(d),
    ensures
        split_on(s, d) == seq![s],
    decreases s.len(),
{
    if s.len() == 0 {
        assert(s =~= Seq::<char>::empty());
    } else {
        assert(s[s.len() - 1] != d) by {
            if s[s.len() - 1] == d {
                assert(s.contains(d));
            }
        }
        assert(!s.drop_last().contains(d)) by {
            if s.drop_last().contains(d) {
                let t = choose|t: int|
                    0 <= t < s.drop_last().len() && s.drop_last()[t] == d;
                assert(s[t] == d);
                assert(s.contains(d));
            }
        }
        lemma_split_no_delim(s.drop_last(), d);
        assert(split_on(s, d) =~~= seq![s]);
    }
}

/// Splitting distributes over a delimiter occurrence that joins two pieces.
proof fn lemma_split_append(a: Seq<char>, b: Seq<char>, d: char)
    ensures
        split_on(a + seq![d] + b, d) == split_on(a, d) + split_on(b, d),
    decreases b.len(),
{
    lemma_split_on_len(a, d);
    lemma_split_on_len(b, d);
    let s = a + seq![d] + b;
    if b.len() == 0 {
        assert(s.drop_last() =~= a);
        assert(s.last() == d);
        assert(split_on(a, d).push(Seq::<char>::empty()) =~~= split_on(a, d) + split_on(b, d));
    } else {
        lemma_split_append(a, b.drop_last(), d);
        lemma_split_on_len(b.drop_last(), d);
        assert(s.drop_last() =~= a + seq![d] + b.drop_last());
        assert(s.last() == b.last());
        let r = split_on(s.drop_last(), d);
        let rb = split_on(b.drop_last(), d);
        assert(r == split_on(a, d) + rb);
        if b.last() == d {
            assert(split_on(s, d) == r.push(Seq::<char>::empty()));
            assert(split_on(b, d) == rb.push(Seq::<char>::empty()));
            assert(r.push(Seq::<char>::empty()) =~~= split_on(a, d) + rb.push(
                Seq::<char>::empty(),
            ));
        } else {
            assert(r.last() == rb.last());
            assert(split_on(s, d) == r.update(r.len() - 1, r.last().push(b.last())));
            assert(split_on(b, d) == rb.update(rb.len() - 1, rb.last().push(b.last())));
            assert(r.update(r.len() - 1, r.last().push(b.last())) =~~= split_on(a, d) + rb.update(
                rb.len() - 1,
                rb.last().push(b.last()),
            ));
        }
    }
}

/// Splitting a joined line yields the quote-wrapped fields, one for one, when
/// no field holds the delimiter and the quote is not the delimiter.
proof fn lemma_split_join(fields: Seq<Seq<char>>, d: char, quote: Option<char>)
    requires
        fields.len() >= 1,
        forall|i: int| 0 <= i < fields.len() ==> !(#[trigger] fields[i]).contains(d),
        quote matches Some(q) ==> q != d,
    ensures
        split_on(join_fields(fields, d, quote), d) == fields.map_values(
            |f: Seq<char>| quote_wrap(f, quote),
        ),
    decreases fields.len(),
{
    let wrap = |f: Seq<char>| quote_wrap(f, quote);
    if fields.len() == 1 {
        lemma_wrap_no_delim(fields[0], d, quote);
        lemma_split_no_delim(quote_wrap(fields[0], quote), d);
        assert(seq![quote_wrap(fields[0], quote)] =~~= fields.map_values(wrap));
    } else {
        let front = fields.drop_last();
        assert forall|i: int| 0 <= i < front.len() implies !(#[trigger] front[i]).contains(d) by {
            assert(front[i] == fields[i]);
        }
        lemma_split_join(front, d, quote);
        lemma_wrap_no_delim(fields.last(), d, quote);
        lemma_split_no_delim(quote_wrap(fields.last(), quote), d);
        lemma_split_append(
            join_fields(front, d, quote),
            quote_wrap(fields.last(), quote),
            d,
        );
        assert(split_on(join_fields(fields, d, quote), d) == front.map_values(wrap) + seq![
            quote_wrap(fields.last(), quote),
        ]);
        assert(front.map_values(wrap) + seq![quote_wrap(fields.last(), quote)] =~~= fields
            .map_values(wrap));
    }
}

/// Trimming the configured quote undoes the wrap exactly.
proof fn lemma_trim_wrap(f: Seq<char>, quote: Option<char>)
    ensures
        apply_quote(quote_wrap(f, quote), quote) == f,
{
    match quote {
        None => {},
        Some(q) => {
            let w = seq![q] + f + seq![q];
            assert(w.len() >= 2);
            assert(w.first() == q);
            assert(w.drop_first() =~= f + seq![q]);
            assert((f + seq![q]).last() == q);
            assert((f + seq![q]).drop_last() =~= f);
        },
    }
}

/// Round trip: decoding a line joined by [`join_fields`] with the original
/// delimiter and quote yields the original fields again. This holds for
/// fields that hold no delimiter character, with a configured quote that is
/// neither the delimiter nor a line feed; with no quote configured, the
/// joined line must further not end in a line feed (the decoder would take
/// one for a line terminator and strip it), so the last field must not end in
/// `'\n'`, and when the last field is empty the delimiter must not be `'\n'`.
pub proof fn lemma_decode_join_roundtrip(fields: Seq<Seq<char>>, d: char, quote: Option<char>)
    requires
        fields.len() >= 1,
        forall|i: int| 0 <= i < fields.len() ==> !(#[trigger] fields[i]).contains(d),
        match quote {
            Some(q) => q != d && q != '\n',
            None => {
                &&& (fields.last().len() > 0 ==> fields.last().last() != '\n')
                &&& (fields.len() > 1 && fields.last().len() == 0 ==> d != '\n')
            },
        },
    ensures
        spec_decode_row(join_fields(fields, d, quote), d, quote) == fields,
{
    let line = join_fields(fields, d, quote);
    assert(strip_eol(line) == line) by {
        if line.len() > 0 && line.last() == '\n' {
            if fields.len() == 1 {
                match quote {
                    Some(q) => {
                        assert(line[line.len() - 1] == q);
                    },
                    None => {
                        assert(line == fields.last());
                    },
                }
            } else {
                let front_line = join_fields(fields.drop_last(), d, quote);
                let w = quote_wrap(fields.last(), quote);
                assert(line == front_line + seq![d] + w);
                match quote {
                    Some(q) => {
                        assert(w[w.len() - 1] == q);
                        assert(line.last() == q);
                    },
                    None => {
                        if fields.last().len() > 0 {
                            assert(line.last() == fields.last().last());
                        } else {
                            assert(line.last() == d);
                        }
                    },
                }
            }
        }
    }
    lemma_split_join(fields, d, quote);
    let wrap = |f: Seq<char>| quote_wrap(f, quote);
    let trim = |f: Seq<char>| apply_quote(f, quote);
    assert(spec_decode_row(line, d, quote) == fields.map_values(wrap).map_values(trim));
    assert forall|i: int|
        0 <= i < fields.len() implies fields.map_values(wrap).map_values(trim)[i] == fields[i] by {
        lemma_trim_wrap(fields[i], quote);
    }
    assert(fields.map_values(wrap).map_values(trim) =~= fields);
}

/// Splitting leaves no delimiter inside any field.
proof fn lemma_split_fields_no_delim(s: Seq<char>, d: char)
    ensures
        forall|i: int|
            0 <= i < split_on(s, d).len() ==> !(#[trigger] split_on(s, d)[i]).contains(d),
    decreases s.len(),
{
    if s.len() == 0 {
        assert forall|i: int|
            0 <= i < split_on(s, d).len() implies !(#[trigger] split_on(s, d)[i]).contains(d) by {
            assert(split_on(s, d)[i].len() == 0);
        }
    } else {
        lemma_split_fields_no_delim(s.drop_last(), d);
        lemma_split_on_len(s.drop_last(), d);
        let r = split_on(s.drop_last(), d);
        if s.last() == d {
            assert forall|i: int|
                0 <= i < split_on(s, d).len() implies !(#[trigger] split_on(s, d)[i]).contains(
                d,
            ) by {
                if i < r.len() {
                    assert(split_on(s, d)[i] == r[i]);
                } else {
                    assert(split_on(s, d)[i].len() == 0);
                }
            }
        } else {
            let upd = r.update(r.len() - 1, r.last().push(s.last()));
            assert forall|i: int|
                0 <= i < upd.len() implies !(#[trigger] upd[i]).contains(d) by {
                if i == r.len() - 1 {
                    let f = r.last().push(s.last());
                    if f.contains(d) {
                        let w = choose|w: int| 0 <= w < f.len() && f[w] == d;
                        if w < r.last().len() {
                            assert(r.last()[w] == d);
                            assert(r.last().contains(d));
                        }
                    }
                } else {
                    assert(upd[i] == r[i]);
                }
            }
        }
    }
}

/// Decoding leaves no delimiter inside any field: splitting removes every
/// occurrence, and quote trimming only shortens a field at its ends.
pub proof fn lemma_decode_fields_no_delim(raw: Seq<char>, delimiter: char, quote: Option<char>)
    ensures
        forall|i: int|
            0 <= i < spec_decode_row(raw, delimiter, quote).len() ==> !(
            #[trigger] spec_decode_row(raw, delimiter, quote)[i]).contains(delimiter),
{
    let s = strip_eol(raw);
    lemma_split_fields_no_delim(s, delimiter);
    assert forall|i: int|
        0 <= i < spec_decode_row(raw, delimiter, quote).len() implies !(
        #[trigger] spec_decode_row(raw, delimiter, quote)[i]).contains(delimiter) by {
        let f = split_on(s, delimiter)[i];
        let g = spec_decode_row(raw, delimiter, quote)[i];
        assert(g == apply_quote(f, quote));
        if g.contains(delimiter) {
            let w = choose|w: int| 0 <= w < g.len() && g[w] == delimiter;
            match quote {
                None => {
                    assert(f.contains(delimiter));
                },
                Some(q) => {
                    let a = if f.len() > 0 && f.first() == q {
                        f.drop_first()
                    } else {
                        f
                    };
                    if f.len() > 0 && f.first() == q {
                        assert(a[w] == f[w + 1]);
                        assert(f.contains(delimiter));
                    } else {
                        assert(a[w] == f[w]);
                        assert(f.contains(delimiter));
                    }
                },
            }
        }
    }
}

/// Idempotence of decoding under re-encoding: the fields a line decodes to,
/// joined again with the same delimiter and quote, decode back to those same
/// fields. The quote (if configured) must be neither the delimiter nor a line
/// feed; with no quote configured, the re-joined line must not end in a line
/// feed.
pub proof fn lemma_decode_reencode_idempotent(raw: Seq<char>, d: char, quote: Option<char>)
    requires
        match quote {
            Some(q) => q != d && q != '\n',
            None => {
                let fields = spec_decode_row(raw, d, quote);
                &&& (fields.last().len() > 0 ==> fields.last().last() != '\n')
                &&& (fields.len() > 1 && fields.last().len() == 0 ==> d != '\n')
            },
        },
    ensures
        spec_decode_row(join_fields(spec_decode_row(raw, d, quote), d, quote), d, quote)
            == spec_decode_row(raw, d, quote),
{
    lemma_decode_fields_no_delim(raw, d, quote);
    lemma_split_on_len(strip_eol(raw), d);
    lemma_decode_join_roundtrip(spec_decode_row(raw, d, quote), d, quote);
}

/// Decodes one raw line into its fields: strips a trailing line terminator,
/// splits on every occurrence of the delimiter, and trims one leading and one
/// trailing quote character from each field when a quote is configured. An
/// empty line decodes to a single empty field.
pub fn decode_row(raw: &str, delimiter: char, quote: Option<char>) -> (r: Vec<String>)
    ensures
        r.deep_view() == spec_decode_row(raw@, delimiter, quote),
        r@.len() >= 1,
{
    let n = raw.unicode_len();
    let mut m = n;
    if m > 0 && raw.get_char(m - 1) == '\n' {
        m = m - 1;
        if m > 0 && raw.get_char(m - 1) == '\r' {
            m = m - 1;
        }
    }
    let ghost stripped = strip_eol(raw@);
    proof {
        assert(stripped =~= raw@.take(m as int));
        lemma_split_on_len(stripped, delimiter);
    }
    let ghost trim = |f: Seq<char>| apply_quote(f, quote);
    let mut fields: Vec<String> = Vec::new();
    let mut start: usize = 0;
    let mut i: usize = 0;
    while i < m
        invariant
            start <= i <= m <= raw@.len(),
            stripped == strip_eol(raw@),
            stripped == raw@.take(m as int),
            trim == (|f: Seq<char>| apply_quote(f, quote)),
            split_on(stripped.take(i as int), delimiter).len() >= 1,
            fields.deep_view() == split_on(stripped.take(i as int), delimiter).drop_last()
                .map_values(trim),
            split_on(stripped.take(i as int), delimiter).last() == stripped.subrange(
                start as int,
                i as int,
            ),
        decreases m - i,
    {
        let ghost prev = split_on(stripped.take(i as int), delimiter);
        let c = raw.get_char(i);
        proof {
            assert(stripped.take(i + 1).drop_last() =~= stripped.take(i as int));
            assert(stripped.take(i + 1).last() == c);
        }
        if c == delimiter {
            let field = extract_field(raw, start, i, quote);
            proof {
                assert(raw@.subrange(start as int, i as int) =~= stripped.subrange(
                    start as int,
                    i as int,
                ));
            }
            fields.push(field);
            proof {
                let cur = split_on(stripped.take(i + 1), delimiter);
                assert(cur == prev.push(Seq::<char>::empty()));
                assert(cur.drop_last() =~= prev);
                assert(cur.drop_last().map_values(trim) =~= prev.drop_last().map_values(
                    trim,
                ).push(trim(prev.last())));
                assert(fields.deep_view() =~= cur.drop_last().map_values(trim));
                assert(cur.last() =~= stripped.subrange(i + 1, i + 1));
            }
            start = i + 1;
        } else {
            proof {
                let cur = split_on(stripped.take(i + 1), delimiter);
                assert(cur == prev.update(prev.len() - 1, prev.last().push(c)));
                assert(cur.drop_last() =~= prev.drop_last());
                assert(cur.drop_last().map_values(trim) =~= prev.drop_last().map_values(trim));
                assert(cur.last() == prev.last().push(c));
                assert(cur.last() =~= stripped.subrange(start as int, i + 1));
            }
        }
        i = i + 1;
    }
    proof {
        assert(stripped.take(m as int) =~= stripped);
    }
    let ghost parts = split_on(stripped, delimiter);
    let field = extract_field(raw, start, m, quote);
    proof {
        assert(raw@.subrange(start as int, m as int) =~= stripped.subrange(start as int, m as int));
    }
    fields.push(field);
    proof {
        assert(fields.deep_view() =~= parts.drop_last().map_values(trim).push(trim(parts.last())));
        assert(parts.drop_last().map_values(trim).push(trim(parts.last())) =~= parts.map_values(
            trim,
        ));
    }
    fields
}

} // verus!
