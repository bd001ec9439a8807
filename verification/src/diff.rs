//! The diff driver: builds catalogs and row indexes for both tables, computes
//! the shared column names and shared identity keys, and compares every
//! matched row pair at every shared column, emitting a difference record
//! wherever the two values disagree.

use vstd::prelude::*;
use crate::catalog::{
    build_catalog, catalog_err, catalog_ok, has_duplicate, spec_header_names, ColumnCatalog,
};
use crate::codec::{spec_decode_row, str_eq};
use crate::descriptor::TableDescriptor;
use crate::error::StructuralError;
use crate::fetch::fetch_row;
use crate::index::{
    build_index, index_err, index_ok, key_cols_in_range, lemma_index_map_range,
    spec_expected_count, spec_index_map,
};
use crate::intersect::{
    intersect, lemma_intersect_contains, lemma_intersect_no_dup, spec_intersect,
};

verus! {

/// One detected difference: under a shared identity key, a shared column
/// holds one value in the left table and another in the right table.
#[derive(Debug, Clone, PartialEq, Eq)]
pub struct DifferenceRecord {
    pub key: String,
    pub column: String,
    pub left_value: String,
    pub right_value: String,
}

/// Whether `col` names a column of both tables.
pub open spec fn is_shared_column(
    la: Seq<Seq<char>>,
    da: char,
    qa: Option<char>,
    lb: Seq<Seq<char>>,
    db: char,
    qb: Option<char>,
    col: Seq<char>,
) -> bool {
    spec_header_names(la, da, qa).contains(col) && spec_header_names(lb, db, qb).contains(col)
}

/// Whether `key` is the identity key of some data row in both tables.
pub open spec fn is_shared_key(
    la: Seq<Seq<char>>,
    da: char,
    qa: Option<char>,
    lb: Seq<Seq<char>>,
    db: char,
    qb: Option<char>,
    k0: int,
    k1: int,
    key: Seq<char>,
) -> bool {
    spec_index_map(la, da, qa, k0, k1).dom().contains(key) && spec_index_map(
        lb,
        db,
        qb,
        k0,
        k1,
    ).dom().contains(key)
}

/// The value a table holds for `key` in the column named `col`: the data row
/// the table's index records for the key, decoded, read at the column's
/// ordinal in the table's own catalog.
pub open spec fn spec_field_at(
    lines: Seq<Seq<char>>,
    delimiter: char,
    quote: Option<char>,
    k0: int,
    k1: int,
    key: Seq<char>,
    col: Seq<char>,
) -> Seq<char> {
    spec_decode_row(
        lines[spec_index_map(lines, delimiter, quote, k0, k1)[key]],
        delimiter,
        quote,
    )[spec_header_names(lines, delimiter, quote).index_of(col)]
}

/// Whether the quadruple (key, col, left, right) is a difference between the
/// two tables: the key and the column are shared, `left` and `right` are the
/// two tables' values there, and the two values disagree.
pub open spec fn is_difference(
    la: Seq<Seq<char>>,
    da: char,
    qa: Option<char>,
    lb: Seq<Seq<char>>,
    db: char,
    qb: Option<char>,
    k0: int,
    k1: int,
    key: Seq<char>,
    col: Seq<char>,
    left: Seq<char>,
    right: Seq<char>,
) -> bool {
    &&& is_shared_column(la, da, qa, lb, db, qb, col)
    &&& is_shared_key(la, da, qa, lb, db, qb, k0, k1, key)
    &&& left == spec_field_at(la, da, qa, k0, k1, key, col)
    &&& right == spec_field_at(lb, db, qb, k0, k1, key, col)
    &&& left != right
}

/// Whether some record of `records` reports exactly this quadruple.
pub open spec fn records_contain(
    records: Seq<DifferenceRecord>,
    key: Seq<char>,
    col: Seq<char>,
    left: Seq<char>,
    right: Seq<char>,
) -> bool {
    exists|t: int|
        0 <= t < records.len() && records[t].key@ == key && records[t].column@ == col
            && records[t].left_value@ == left && records[t].right_value@ == right
}

/// No two records report the same key and column.
pub open spec fn records_distinct(records: Seq<DifferenceRecord>) -> bool {
    forall|t1: int, t2: int|
        #![trigger records[t1], records[t2]]
        0 <= t1 < t2 < records.len() ==> !(records[t1].key@ == records[t2].key@
            && records[t1].column@ == records[t2].column@)
}

/// Whether a whole diff run succeeds: both catalogs and both row indexes
/// build without a structural error.
pub open spec fn diff_ok(
    la: Seq<Seq<char>>,
    da: char,
    qa: Option<char>,
    lb: Seq<Seq<char>>,
    db: char,
    qb: Option<char>,
) -> bool {
    &&& catalog_ok(la, da, qa)
    &&& catalog_ok(lb, db, qb)
    &&& index_ok(la, da, qa)
    &&& index_ok(lb, db, qb)
}

/// The exact error a failed diff reports: the first failing build, the
/// catalogs before the indexes and the left table before the right.
pub open spec fn diff_err(
    la: Seq<Seq<char>>,
    da: char,
    qa: Option<char>,
    lb: Seq<Seq<char>>,
    db: char,
    qb: Option<char>,
    e: StructuralError,
) -> bool {
    if !catalog_ok(la, da, qa) {
        catalog_err(la, da, qa, e)
    } else if !catalog_ok(lb, db, qb) {
        catalog_err(lb, db, qb, e)
    } else if !index_ok(la, da, qa) {
        index_err(la, da, qa, e)
    } else {
        index_err(lb, db, qb, e)
    }
}

/// Whether every shared column's ordinal lies inside the field count of its
/// table's data rows, as soon as any identity key is shared. Only under a
/// shared key is a row fetched and read at a column's ordinal, so this is
/// exactly what comparing requires.
pub open spec fn shared_cols_in_rows(
    la: Seq<Seq<char>>,
    da: char,
    qa: Option<char>,
    lb: Seq<Seq<char>>,
    db: char,
    qb: Option<char>,
    k0: int,
    k1: int,
) -> bool {
    (exists|key: Seq<char>| is_shared_key(la, da, qa, lb, db, qb, k0, k1, key)) ==> forall|
        col: Seq<char>,
    |
        is_shared_column(la, da, qa, lb, db, qb, col) ==> {
            &&& spec_header_names(la, da, qa).index_of(col) < spec_expected_count(la, da, qa)
            &&& spec_header_names(lb, db, qb).index_of(col) < spec_expected_count(lb, db, qb)
        }
}

/// Compares the two fetched rows of one shared key at every shared column and
/// returns the difference records for that key.
fn diff_one_key(
    row_a: &Vec<String>,
    row_b: &Vec<String>,
    catalog_a: &ColumnCatalog,
    catalog_b: &ColumnCatalog,
    key: &String,
    shared_cols: &Vec<String>,
    Ghost(la): Ghost<Seq<Seq<char>>>,
    Ghost(da): Ghost<char>,
    Ghost(qa): Ghost<Option<char>>,
    Ghost(lb): Ghost<Seq<Seq<char>>>,
    Ghost(db): Ghost<char>,
    Ghost(qb): Ghost<Option<char>>,
    Ghost(k0): Ghost<int>,
    Ghost(k1): Ghost<int>,
) -> (r: Vec<DifferenceRecord>)
    requires
        catalog_a@ == spec_header_names(la, da, qa),
        catalog_b@ == spec_header_names(lb, db, qb),
        catalog_a.wf(),
        catalog_b.wf(),
        is_shared_key(la, da, qa, lb, db, qb, k0, k1, key@),
        row_a.deep_view() == spec_decode_row(
            la[spec_index_map(la, da, qa, k0, k1)[key@]],
            da,
            qa,
        ),
        row_b.deep_view() == spec_decode_row(
            lb[spec_index_map(lb, db, qb, k0, k1)[key@]],
            db,
            qb,
        ),
        shared_cols.deep_view() == spec_intersect(
            spec_header_names(la, da, qa),
            spec_header_names(lb, db, qb),
        ),
        !has_duplicate(shared_cols.deep_view()),
        forall|col: Seq<char>|
            is_shared_column(la, da, qa, lb, db, qb, col) ==> {
                &&& 0 <= spec_header_names(la, da, qa).index_of(col) < row_a.deep_view().len()
                &&& 0 <= spec_header_names(lb, db, qb).index_of(col) < row_b.deep_view().len()
            },
    ensures
        forall|t: int|
            #![trigger r@[t]]
            0 <= t < r@.len() ==> r@[t].key@ == key@ && is_difference(
                la,
                da,
                qa,
                lb,
                db,
                qb,
                k0,
                k1,
                key@,
                r@[t].column@,
                r@[t].left_value@,
                r@[t].right_value@,
            ),
        forall|col: Seq<char>, left: Seq<char>, right: Seq<char>|
            is_difference(la, da, qa, lb, db, qb, k0, k1, key@, col, left, right)
                ==> records_contain(r@, key@, col, left, right),
        forall|t1: int, t2: int|
            #![trigger r@[t1], r@[t2]]
            0 <= t1 < t2 < r@.len() ==> r@[t1].column@ != r@[t2].column@,
{
    let ghost names_a = spec_header_names(la, da, qa);
    let ghost names_b = spec_header_names(lb, db, qb);
    let ghost scols = shared_cols.deep_view();
    let mut out: Vec<DifferenceRecord> = Vec::new();
    let mut ci: usize = 0;
    while ci < shared_cols.len()
        invariant
            ci <= shared_cols@.len(),
            scols == shared_cols.deep_view(),
            scols.len() == shared_cols@.len(),
            names_a == spec_header_names(la, da, qa),
            names_b == spec_header_names(lb, db, qb),
            catalog_a@ == names_a,
            catalog_b@ == names_b,
            catalog_a.wf(),
            catalog_b.wf(),
            is_shared_key(la, da, qa, lb, db, qb, k0, k1, key@),
            row_a.deep_view() == spec_decode_row(
                la[spec_index_map(la, da, qa, k0, k1)[key@]],
                da,
                qa,
            ),
            row_b.deep_view() == spec_decode_row(
                lb[spec_index_map(lb, db, qb, k0, k1)[key@]],
                db,
                qb,
            ),
            scols == spec_intersect(names_a, names_b),
            !has_duplicate(scols),
            forall|col: Seq<char>|
                is_shared_column(la, da, qa, lb, db, qb, col) ==> {
                    &&& 0 <= names_a.index_of(col) < row_a.deep_view().len()
                    &&& 0 <= names_b.index_of(col) < row_b.deep_view().len()
                },
            forall|t: int|
                #![trigger out@[t]]
                0 <= t < out@.len() ==> out@[t].key@ == key@ && scols.take(ci as int).contains(
                    out@[t].column@,
                ) && is_difference(
                    la,
                    da,
                    qa,
                    lb,
                    db,
                    qb,
                    k0,
                    k1,
                    key@,
                    out@[t].column@,
                    out@[t].left_value@,
                    out@[t].right_value@,
                ),
            forall|col: Seq<char>, left: Seq<char>, right: Seq<char>|
                is_difference(la, da, qa, lb, db, qb, k0, k1, key@, col, left, right)
                    && scols.take(ci as int).contains(col) ==> records_contain(
                    out@,
                    key@,
                    col,
                    left,
                    right,
                ),
            forall|t1: int, t2: int|
                #![trigger out@[t1], out@[t2]]
                0 <= t1 < t2 < out@.len() ==> out@[t1].column@ != out@[t2].column@,
        decreases shared_cols@.len() - ci,
    {
        let ghost prev = out@;
        let col = &shared_cols[ci];
        proof {
            assert(scols[ci as int] == shared_cols@[ci as int]@);
            assert(scols[ci as int] == col@);
            assert(scols.contains(col@));
            lemma_intersect_contains(names_a, names_b, col@);
            assert(is_shared_column(la, da, qa, lb, db, qb, col@));
        }
        let ord_a_opt = catalog_a.ordinal_of(col.as_str());
        let ord_b_opt = catalog_b.ordinal_of(col.as_str());
        proof {
            assert(names_a.contains(col@));
            assert(names_b.contains(col@));
        }
        let ord_a = ord_a_opt.unwrap();
        let ord_b = ord_b_opt.unwrap();
        proof {
            let iof_a = names_a.index_of(col@);
            assert(0 <= iof_a < names_a.len() && names_a[iof_a] == col@);
            if iof_a != ord_a as int {
                assert(has_duplicate(names_a));
            }
            let iof_b = names_b.index_of(col@);
            assert(0 <= iof_b < names_b.len() && names_b[iof_b] == col@);
            if iof_b != ord_b as int {
                assert(has_duplicate(names_b));
            }
            assert(row_a.deep_view()[ord_a as int] == row_a@[ord_a as int]@);
            assert(row_b.deep_view()[ord_b as int] == row_b@[ord_b as int]@);
        }
        let va = &row_a[ord_a];
        let vb = &row_b[ord_b];
        let ghost left = va@;
        let ghost right = vb@;
        proof {
            assert(left == spec_field_at(la, da, qa, k0, k1, key@, col@));
            assert(right == spec_field_at(lb, db, qb, k0, k1, key@, col@));
        }
        if !str_eq(va.as_str(), vb.as_str()) {
            out.push(
                DifferenceRecord {
                    key: key.clone(),
                    column: col.clone(),
                    left_value: va.clone(),
                    right_value: vb.clone(),
                },
            );
            proof {
                assert(out@[prev.len() as int].column@ == col@);
                assert(out@[prev.len() as int].key@ == key@);
                assert(forall|t: int| 0 <= t < prev.len() ==> out@[t] == prev[t]);
            }
        }
        proof {
            let sc1 = scols.take(ci + 1);
            assert(sc1.drop_last() =~= scols.take(ci as int));
            assert forall|x: Seq<char>| sc1.contains(x) implies scols.take(ci as int).contains(x)
                || x == col@ by {
                let w = choose|w: int| 0 <= w < sc1.len() && #[trigger] sc1[w] == x;
                if w < ci {
                    assert(scols.take(ci as int)[w] == x);
                }
            }
            assert(scols.take(ci + 1)[ci as int] == col@);
            if left == right {
                assert forall|c2: Seq<char>, l2: Seq<char>, r2: Seq<char>|
                    is_difference(la, da, qa, lb, db, qb, k0, k1, key@, c2, l2, r2)
                        && scols.take(ci + 1).contains(c2) implies records_contain(
                    out@,
                    key@,
                    c2,
                    l2,
                    r2,
                ) by {
                    if c2 == col@ {
                        assert(l2 == left && r2 == right);
                        assert(false);
                    } else {
                        assert(scols.take(ci as int).contains(c2));
                    }
                }
            } else {
                assert forall|c2: Seq<char>, l2: Seq<char>, r2: Seq<char>|
                    is_difference(la, da, qa, lb, db, qb, k0, k1, key@, c2, l2, r2)
                        && scols.take(ci + 1).contains(c2) implies records_contain(
                    out@,
                    key@,
                    c2,
                    l2,
                    r2,
                ) by {
                    if c2 == col@ {
                        assert(l2 == left && r2 == right);
                        assert(out@[prev.len() as int].column@ == c2);
                    } else {
                        assert(scols.take(ci as int).contains(c2));
                        assert(records_contain(prev, key@, c2, l2, r2));
                        let t = choose|t: int|
                            0 <= t < prev.len() && prev[t].key@ == key@ && prev[t].column@ == c2
                                && prev[t].left_value@ == l2 && prev[t].right_value@ == r2;
                        assert(out@[t] == prev[t]);
                    }
                }
                // the freshly pushed column was not reported before
                assert forall|t: int| 0 <= t < prev.len() implies out@[t].column@ != col@ by {
                    assert(scols.take(ci as int).contains(out@[t].column@));
                    if out@[t].column@ == col@ {
                        let sc0 = scols.take(ci as int);
                        let w = choose|w: int| 0 <= w < sc0.len() && #[trigger] sc0[w] == col@;
                        assert(scols[w] == scols[ci as int]);
                        assert(has_duplicate(scols));
                    }
                }
            }
        }
        ci = ci + 1;
    }
    proof {
        assert(scols.take(scols.len() as int) =~= scols);
        assert forall|col: Seq<char>, left: Seq<char>, right: Seq<char>|
            is_difference(la, da, qa, lb, db, qb, k0, k1, key@, col, left, right)
                implies records_contain(out@, key@, col, left, right) by {
            lemma_intersect_contains(names_a, names_b, col);
            assert(scols.contains(col));
        }
    }
    out
}

/// Diffs two tables: builds both catalogs and both row indexes (propagating
/// the first structural error, which aborts the whole run with no partial
/// result), computes the shared column names and shared identity keys, and
/// for every shared key fetches the two recorded rows and compares them at
/// every shared column, resolving each column's ordinal independently per
/// table. A record is emitted exactly for each shared key and shared column
/// whose two values disagree; keys or columns present in only one table are
/// never reported. The key columns `k0` and `k1` must exist in both tables'
/// data rows, and every shared column must lie inside the data rows' field
/// counts.
pub fn diff(
    desc_a: &TableDescriptor,
    lines_a: &Vec<String>,
    desc_b: &TableDescriptor,
    lines_b: &Vec<String>,
    k0: usize,
    k1: usize,
) -> (r: Result<Vec<DifferenceRecord>, StructuralError>)
    requires
        key_cols_in_range(
            lines_a.deep_view(),
            desc_a.delimiter,
            desc_a.quote,
            k0 as int,
            k1 as int,
        ),
        key_cols_in_range(
            lines_b.deep_view(),
            desc_b.delimiter,
            desc_b.quote,
            k0 as int,
            k1 as int,
        ),
        shared_cols_in_rows(
            lines_a.deep_view(),
            desc_a.delimiter,
            desc_a.quote,
            lines_b.deep_view(),
            desc_b.delimiter,
            desc_b.quote,
            k0 as int,
            k1 as int,
        ),
    ensures
        ({
            let la = lines_a.deep_view();
            let da = desc_a.delimiter;
            let qa = desc_a.quote;
            let lb = lines_b.deep_view();
            let db = desc_b.delimiter;
            let qb = desc_b.quote;
            match r {
                Ok(records) => {
                    &&& diff_ok(la, da, qa, lb, db, qb)
                    &&& forall|t: int|
                        #![trigger records@[t]]
                        0 <= t < records@.len() ==> is_difference(
                            la,
                            da,
                            qa,
                            lb,
                            db,
                            qb,
                            k0 as int,
                            k1 as int,
                            records@[t].key@,
                            records@[t].column@,
                            records@[t].left_value@,
                            records@[t].right_value@,
                        )
                    &&& forall|key: Seq<char>, col: Seq<char>, left: Seq<char>, right: Seq<char>|
                        is_difference(la, da, qa, lb, db, qb, k0 as int, k1 as int, key, col,
                            left, right) ==> records_contain(records@, key, col, left, right)
                    &&& records_distinct(records@)
                },
                Err(e) => {
                    &&& !diff_ok(la, da, qa, lb, db, qb)
                    &&& diff_err(la, da, qa, lb, db, qb, e)
                },
            }
        }),
{
    let ghost la = lines_a.deep_view();
    let ghost da = desc_a.delimiter;
    let ghost qa = desc_a.quote;
    let ghost lb = lines_b.deep_view();
    let ghost db = desc_b.delimiter;
    let ghost qb = desc_b.quote;
    let catalog_a = match build_catalog(desc_a, lines_a) {
        Ok(c) => c,
        Err(e) => {
            return Err(e);
        },
    };
    let catalog_b = match build_catalog(desc_b, lines_b) {
        Ok(c) => c,
        Err(e) => {
            return Err(e);
        },
    };
    let index_a = match build_index(desc_a, lines_a, k0, k1) {
        Ok(x) => x,
        Err(e) => {
            return Err(e);
        },
    };
    let index_b = match build_index(desc_b, lines_b, k0, k1) {
        Ok(x) => x,
        Err(e) => {
            return Err(e);
        },
    };
    let ghost names_a = spec_header_names(la, da, qa);
    let ghost names_b = spec_header_names(lb, db, qb);
    let ghost map_a = spec_index_map(la, da, qa, k0 as int, k1 as int);
    let ghost map_b = spec_index_map(lb, db, qb, k0 as int, k1 as int);
    let shared_cols = intersect(&catalog_a.names, &catalog_b.names);
    proof {
        lemma_intersect_no_dup(names_a, names_b);
    }
    let keys_a = index_a.keys();
    let keys_b = index_b.keys();
    let shared_keys = intersect(&keys_a, &keys_b);
    let ghost skeys = shared_keys.deep_view();
    proof {
        lemma_intersect_no_dup(keys_a.deep_view(), keys_b.deep_view());
        assert forall|x: Seq<char>| #[trigger]
            skeys.contains(x) == is_shared_key(la, da, qa, lb, db, qb, k0 as int, k1 as int, x)
        by {
            lemma_intersect_contains(keys_a.deep_view(), keys_b.deep_view(), x);
            assert(keys_a.deep_view().contains(x) == keys_a.deep_view().to_set().contains(x));
            assert(keys_b.deep_view().contains(x) == keys_b.deep_view().to_set().contains(x));
        }
    }
    let mut records: Vec<DifferenceRecord> = Vec::new();
    let mut ki: usize = 0;
    while ki < shared_keys.len()
        invariant
            ki <= shared_keys@.len(),
            skeys == shared_keys.deep_view(),
            skeys.len() == shared_keys@.len(),
            la == lines_a.deep_view(),
            lb == lines_b.deep_view(),
            da == desc_a.delimiter,
            qa == desc_a.quote,
            db == desc_b.delimiter,
            qb == desc_b.quote,
            names_a == spec_header_names(la, da, qa),
            names_b == spec_header_names(lb, db, qb),
            map_a == spec_index_map(la, da, qa, k0 as int, k1 as int),
            map_b == spec_index_map(lb, db, qb, k0 as int, k1 as int),
            catalog_a@ == names_a,
            catalog_b@ == names_b,
            catalog_a.wf(),
            catalog_b.wf(),
            catalog_ok(la, da, qa),
            catalog_ok(lb, db, qb),
            index_ok(la, da, qa),
            index_ok(lb, db, qb),
            index_a@ == map_a,
            index_b@ == map_b,
            shared_cols.deep_view() == spec_intersect(names_a, names_b),
            !has_duplicate(shared_cols.deep_view()),
            !has_duplicate(skeys),
            shared_cols_in_rows(la, da, qa, lb, db, qb, k0 as int, k1 as int),
            forall|x: Seq<char>| #[trigger]
                skeys.contains(x) == is_shared_key(la, da, qa, lb, db, qb, k0 as int, k1 as int,
                    x),
            forall|t: int|
                #![trigger records@[t]]
                0 <= t < records@.len() ==> skeys.take(ki as int).contains(records@[t].key@)
                    && is_difference(
                    la,
                    da,
                    qa,
                    lb,
                    db,
                    qb,
                    k0 as int,
                    k1 as int,
                    records@[t].key@,
                    records@[t].column@,
                    records@[t].left_value@,
                    records@[t].right_value@,
                ),
            forall|key: Seq<char>, col: Seq<char>, left: Seq<char>, right: Seq<char>|
                is_difference(la, da, qa, lb, db, qb, k0 as int, k1 as int, key, col, left, right)
                    && skeys.take(ki as int).contains(key) ==> records_contain(
                    records@,
                    key,
                    col,
                    left,
                    right,
                ),
            records_distinct(records@),
        decreases shared_keys@.len() - ki,
    {
        let ghost prev = records@;
        let key = &shared_keys[ki];
        proof {
            assert(skeys[ki as int] == key@);
            assert(skeys.contains(key@));
            assert(is_shared_key(la, da, qa, lb, db, qb, k0 as int, k1 as int, key@));
            lemma_index_map_range(la, da, qa, k0 as int, k1 as int, la.len() as int);
            lemma_index_map_range(lb, db, qb, k0 as int, k1 as int, lb.len() as int);
        }
        let loc_a = index_a.get(key.as_str()).unwrap();
        let loc_b = index_b.get(key.as_str()).unwrap();
        proof {
            assert(1 <= loc_a < la.len());
            assert(1 <= loc_b < lb.len());
        }
        let row_a = fetch_row(desc_a, lines_a, loc_a).unwrap();
        let row_b = fetch_row(desc_b, lines_b, loc_b).unwrap();
        proof {
            assert(row_a.deep_view().len() == spec_expected_count(la, da, qa));
            assert(row_b.deep_view().len() == spec_expected_count(lb, db, qb));
            assert(exists|k2: Seq<char>|
                is_shared_key(la, da, qa, lb, db, qb, k0 as int, k1 as int, k2));
            assert forall|col: Seq<char>|
                is_shared_column(la, da, qa, lb, db, qb, col) implies {
                &&& 0 <= names_a.index_of(col) < row_a.deep_view().len()
                &&& 0 <= names_b.index_of(col) < row_b.deep_view().len()
            } by {
                assert(names_a.contains(col));
                assert(names_b.contains(col));
                assert(names_a[names_a.index_of(col)] == col);
                assert(names_b[names_b.index_of(col)] == col);
            }
        }
        let mut batch = diff_one_key(
            &row_a,
            &row_b,
            &catalog_a,
            &catalog_b,
            key,
            &shared_cols,
            Ghost(la),
            Ghost(da),
            Ghost(qa),
            Ghost(lb),
            Ghost(db),
            Ghost(qb),
            Ghost(k0 as int),
            Ghost(k1 as int),
        );
        let ghost batchv = batch@;
        records.append(&mut batch);
        proof {
            assert(records@ == prev + batchv);
            let sk1 = skeys.take(ki + 1);
            let sk0 = skeys.take(ki as int);
            assert(sk1.drop_last() =~= sk0);
            assert(sk1[ki as int] == key@);
            assert forall|x: Seq<char>| sk1.contains(x) implies sk0.contains(x) || x == key@ by {
                let w = choose|w: int| 0 <= w < sk1.len() && #[trigger] sk1[w] == x;
                if w < ki {
                    assert(sk0[w] == x);
                }
            }
            // the key handled now was not handled before
            assert(!sk0.contains(key@)) by {
                if sk0.contains(key@) {
                    let w = choose|w: int| 0 <= w < sk0.len() && #[trigger] sk0[w] == key@;
                    assert(skeys[w] == skeys[ki as int]);
                    assert(has_duplicate(skeys));
                }
            }
            assert forall|t: int|
                0 <= t < records@.len() implies skeys.take(ki + 1).contains(
                #[trigger] records@[t].key@,
            ) && is_difference(
                la,
                da,
                qa,
                lb,
                db,
                qb,
                k0 as int,
                k1 as int,
                records@[t].key@,
                records@[t].column@,
                records@[t].left_value@,
                records@[t].right_value@,
            ) by {
                if t < prev.len() {
                    assert(records@[t] == prev[t]);
                    assert(skeys.take(ki as int).contains(prev[t].key@));
                } else {
                    assert(records@[t] == batchv[t - prev.len()]);
                }
            }
            assert forall|key2: Seq<char>, col: Seq<char>, left: Seq<char>, right: Seq<char>|
                is_difference(la, da, qa, lb, db, qb, k0 as int, k1 as int, key2, col, left,
                    right) && skeys.take(ki + 1).contains(key2) implies records_contain(
                records@,
                key2,
                col,
                left,
                right,
            ) by {
                if key2 == key@ {
                    assert(records_contain(batchv, key@, col, left, right));
                    let t = choose|t: int|
                        0 <= t < batchv.len() && batchv[t].key@ == key@ && batchv[t].column@ == col
                            && batchv[t].left_value@ == left && batchv[t].right_value@ == right;
                    assert(records@[prev.len() + t] == batchv[t]);
                } else {
                    assert(skeys.take(ki as int).contains(key2));
                    assert(records_contain(prev, key2, col, left, right));
                    let t = choose|t: int|
                        0 <= t < prev.len() && prev[t].key@ == key2 && prev[t].column@ == col
                            && prev[t].left_value@ == left && prev[t].right_value@ == right;
                    assert(records@[t] == prev[t]);
                }
            }
            assert forall|t1: int, t2: int|
                #![trigger records@[t1], records@[t2]]
                0 <= t1 < t2 < records@.len() implies !(records@[t1].key@ == records@[t2].key@
                && records@[t1].column@ == records@[t2].column@) by {
                if t2 < prev.len() {
                    assert(records@[t1] == prev[t1] && records@[t2] == prev[t2]);
                } else if t1 >= prev.len() {
                    assert(records@[t1] == batchv[t1 - prev.len()]);
                    assert(records@[t2] == batchv[t2 - prev.len()]);
                } else {
                    assert(records@[t1] == prev[t1]);
                    assert(records@[t2] == batchv[t2 - prev.len()]);
                    assert(skeys.take(ki as int).contains(prev[t1].key@));
                    assert(records@[t2].key@ == key@);
                }
            }
        }
        ki = ki + 1;
    }
    proof {
        assert(skeys.take(skeys.len() as int) =~= skeys);
    }
    Ok(records)
}

/// Diffing a table against itself yields nothing: no quadruple is a
/// difference between a table and that same table, since both sides hold the
/// same value in every shared column of every shared row.
pub proof fn lemma_diff_self_empty(
    lines: Seq<Seq<char>>,
    delimiter: char,
    quote: Option<char>,
    k0: int,
    k1: int,
    key: Seq<char>,
    col: Seq<char>,
    left: Seq<char>,
    right: Seq<char>,
)
    ensures
        !is_difference(
            lines,
            delimiter,
            quote,
            lines,
            delimiter,
            quote,
            k0,
            k1,
            key,
            col,
            left,
            right,
        ),
{
}

/// Tables sharing no column produce no difference, whatever their rows hold:
/// there is no column to compare.
pub proof fn lemma_no_shared_column_no_difference(
    la: Seq<Seq<char>>,
    da: char,
    qa: Option<char>,
    lb: Seq<Seq<char>>,
    db: char,
    qb: Option<char>,
    k0: int,
    k1: int,
    key: Seq<char>,
    col: Seq<char>,
    left: Seq<char>,
    right: Seq<char>,
)
    requires
        forall|c: Seq<char>| !is_shared_column(la, da, qa, lb, db, qb, c),
    ensures
        !is_difference(la, da, qa, lb, db, qb, k0, k1, key, col, left, right),
{
}

/// Tables sharing no identity key produce no difference, whatever their
/// column overlap: no two rows are ever matched.
pub proof fn lemma_no_shared_key_no_difference(
    la: Seq<Seq<char>>,
    da: char,
    qa: Option<char>,
    lb: Seq<Seq<char>>,
    db: char,
    qb: Option<char>,
    k0: int,
    k1: int,
    key: Seq<char>,
    col: Seq<char>,
    left: Seq<char>,
    right: Seq<char>,
)
    requires
        forall|k: Seq<char>| !is_shared_key(la, da, qa, lb, db, qb, k0, k1, k),
    ensures
        !is_difference(la, da, qa, lb, db, qb, k0, k1, key, col, left, right),
{
}

} // verus!
