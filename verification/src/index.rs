//! The row indexer: one forward scan over a table's data lines, recording a
//! retrieval locator per composite identity key and checking that every data
//! row keeps the field count the first data row established.

use vstd::prelude::*;
use crate::catalog::has_duplicate;
use crate::codec::{decode_row, spec_decode_row, str_eq};
use crate::descriptor::TableDescriptor;
use crate::error::StructuralError;
use crate::intersect::contains_string;

verus! {

/// The composite identity key of one data line: the decoded field at key
/// column `k0` concatenated with the field at key column `k1`, with no
/// separator between them.
pub open spec fn spec_row_key(
    line: Seq<char>,
    delimiter: char,
    quote: Option<char>,
    k0: int,
    k1: int,
) -> Seq<char> {
    spec_decode_row(line, delimiter, quote)[k0] + spec_decode_row(line, delimiter, quote)[k1]
}

/// The field count the first data row establishes for the whole table.
/// Meaningful only when the table has a data row.
pub open spec fn spec_expected_count(
    lines: Seq<Seq<char>>,
    delimiter: char,
    quote: Option<char>,
) -> int {
    spec_decode_row(lines[1], delimiter, quote).len() as int
}

/// Whether the data rows on lines `1..n` all decode to the established field
/// count.
pub open spec fn counts_ok_upto(
    lines: Seq<Seq<char>>,
    delimiter: char,
    quote: Option<char>,
    n: int,
) -> bool {
    forall|i: int|
        1 <= i < n ==> spec_decode_row(lines[i], delimiter, quote).len() == spec_expected_count(
            lines,
            delimiter,
            quote,
        )
}

/// Whether index construction succeeds: every data row decodes to the same
/// field count as the first data row. A table with no data rows (or none at
/// all) succeeds with an empty index.
pub open spec fn index_ok(lines: Seq<Seq<char>>, delimiter: char, quote: Option<char>) -> bool {
    counts_ok_upto(lines, delimiter, quote, lines.len() as int)
}

/// Whether the designated key columns exist in the data rows: vacuous for a
/// table without data rows, otherwise both ordinals lie inside the field
/// count the first data row establishes.
pub open spec fn key_cols_in_range(
    lines: Seq<Seq<char>>,
    delimiter: char,
    quote: Option<char>,
    k0: int,
    k1: int,
) -> bool {
    lines.len() > 1 ==> 0 <= k0 < spec_expected_count(lines, delimiter, quote) && 0 <= k1
        < spec_expected_count(lines, delimiter, quote)
}

/// The key-to-locator map after indexing the data rows on lines `1..n`, in
/// file order: a later row's locator silently overwrites an earlier row's
/// locator under the same key (last write wins).
pub open spec fn spec_index_map_upto(
    lines: Seq<Seq<char>>,
    delimiter: char,
    quote: Option<char>,
    k0: int,
    k1: int,
    n: int,
) -> Map<Seq<char>, int>
    decreases n,
{
    if n <= 1 {
        Map::<Seq<char>, int>::empty()
    } else {
        spec_index_map_upto(lines, delimiter, quote, k0, k1, n - 1).insert(
            spec_row_key(lines[n - 1], delimiter, quote, k0, k1),
            n - 1,
        )
    }
}

/// The completed index of a table: every data row scanned.
pub open spec fn spec_index_map(
    lines: Seq<Seq<char>>,
    delimiter: char,
    quote: Option<char>,
    k0: int,
    k1: int,
) -> Map<Seq<char>, int> {
    spec_index_map_upto(lines, delimiter, quote, k0, k1, lines.len() as int)
}

/// The map an entry list denotes when read in order: each pair inserted after
/// the ones before it, so the last entry under a key wins.
pub open spec fn entries_map(entries: Seq<(String, usize)>) -> Map<Seq<char>, int>
    decreases entries.len(),
{
    if entries.len() == 0 {
        Map::<Seq<char>, int>::empty()
    } else {
        entries_map(entries.drop_last()).insert(
            entries.last().0@,
            entries.last().1 as int,
        )
    }
}

/// One table's row index: composite identity key to retrieval locator. A
/// locator is the row's line number within the table, the header being line
/// zero. Built once by a single forward scan; read-only afterward.
#[derive(Debug, PartialEq, Eq)]
pub struct RowIndex {
    pub entries: Vec<(String, usize)>,
}

impl View for RowIndex {
    type V = Map<Seq<char>, int>;

    open spec fn view(&self) -> Map<Seq<char>, int> {
        entries_map(self.entries@)
    }
}

impl RowIndex {
    /// The locator recorded for `key`: the line number of the last data row
    /// that produced this identity key, or `None` when no row did.
    pub fn get(&self, key: &str) -> (r: Option<usize>)
        ensures
            match r {
                Some(loc) => self@.contains_key(key@) && self@[key@] == loc as int,
                None => !self@.contains_key(key@),
            },
    {
        let mut found: Option<usize> = None;
        let mut i: usize = 0;
        while i < self.entries.len()
            invariant
                i <= self.entries@.len(),
                match found {
                    Some(loc) => entries_map(self.entries@.take(i as int)).contains_key(key@)
                        && entries_map(self.entries@.take(i as int))[key@] == loc as int,
                    None => !entries_map(self.entries@.take(i as int)).contains_key(key@),
                },
            decreases self.entries@.len() - i,
        {
            proof {
                assert(self.entries@.take(i + 1).drop_last() =~= self.entries@.take(i as int));
            }
            if str_eq(self.entries[i].0.as_str(), key) {
                found = Some(self.entries[i].1);
            }
            i = i + 1;
        }
        proof {
            assert(self.entries@.take(self.entries@.len() as int) =~= self.entries@);
        }
        found
    }

    /// The identity keys the index holds, each exactly once, in the order of
    /// each key's first appearance.
    pub fn keys(&self) -> (r: Vec<String>)
        ensures
            r.deep_view().to_set() == self@.dom(),
            !has_duplicate(r.deep_view()),
    {
        let mut out: Vec<String> = Vec::new();
        let mut i: usize = 0;
        while i < self.entries.len()
            invariant
                i <= self.entries@.len(),
                out.deep_view().to_set() == entries_map(self.entries@.take(i as int)).dom(),
                !has_duplicate(out.deep_view()),
            decreases self.entries@.len() - i,
        {
            proof {
                assert(self.entries@.take(i + 1).drop_last() =~= self.entries@.take(i as int));
            }
            let ghost prev = out.deep_view();
            let ghost k = self.entries@[i as int].0@;
            if !contains_string(&out, self.entries[i].0.as_str()) {
                out.push(self.entries[i].0.clone());
                proof {
                    assert forall|x: Seq<char>| out.deep_view().contains(x) implies prev.contains(
                        x,
                    ) || x == k by {
                        let w = choose|w: int|
                            0 <= w < out.deep_view().len() && out.deep_view()[w] == x;
                        if w < prev.len() {
                            assert(prev[w] == x);
                        }
                    }
                    assert forall|x: Seq<char>| prev.contains(x) || x == k implies
                        out.deep_view().contains(x) by {
                        if prev.contains(x) {
                            let w = choose|w: int| 0 <= w < prev.len() && prev[w] == x;
                            assert(out.deep_view()[w] == x);
                        } else {
                            assert(out.deep_view()[prev.len() as int] == k);
                        }
                    }
                    assert(out.deep_view().to_set() =~= prev.to_set().insert(k));
                    assert forall|a: int, b: int|
                        #![trigger out.deep_view()[a], out.deep_view()[b]]
                        0 <= a < b < out.deep_view().len() implies out.deep_view()[a]
                        != out.deep_view()[b] by {
                        if b == prev.len() {
                            assert(prev[a] == out.deep_view()[a]);
                            assert(!prev.contains(k));
                        } else {
                            assert(prev[a] == out.deep_view()[a]);
                            assert(prev[b] == out.deep_view()[b]);
                            assert(!has_duplicate(prev));
                        }
                    }
                }
            } else {
                proof {
                    assert(out.deep_view().to_set().contains(k));
                    assert(out.deep_view().to_set() =~= entries_map(
                        self.entries@.take(i + 1),
                    ).dom());
                }
            }
            proof {
                assert(out.deep_view().to_set() =~= entries_map(self.entries@.take(i + 1)).dom());
            }
            i = i + 1;
        }
        proof {
            assert(self.entries@.take(self.entries@.len() as int) =~= self.entries@);
        }
        out
    }
}

/// The exact error a failed index build reports: the first data row whose
/// decoded field count differs from the count the first data row established,
/// with the offending row's zero-based data-row ordinal and both counts.
pub open spec fn index_err(
    lines: Seq<Seq<char>>,
    delimiter: char,
    quote: Option<char>,
    e: StructuralError,
) -> bool {
    e matches StructuralError::ColumnCountMismatch { ordinal, expected, actual } && {
        let line = ordinal + 1;
        &&& 1 <= line < lines.len()
        &&& expected as int == spec_expected_count(lines, delimiter, quote)
        &&& actual as int == spec_decode_row(lines[line as int], delimiter, quote).len()
        &&& actual != expected
        &&& counts_ok_upto(lines, delimiter, quote, line as int)
    }
}

/// The full contract of [`build_index`]: success exactly under [`index_ok`],
/// with the index denoting [`spec_index_map`], and failure reporting exactly
/// the error of [`index_err`].
pub open spec fn index_post(
    lines: Seq<Seq<char>>,
    delimiter: char,
    quote: Option<char>,
    k0: int,
    k1: int,
    r: Result<RowIndex, StructuralError>,
) -> bool {
    match r {
        Ok(idx) => index_ok(lines, delimiter, quote) && idx@ == spec_index_map(
            lines,
            delimiter,
            quote,
            k0,
            k1,
        ),
        Err(e) => !index_ok(lines, delimiter, quote) && index_err(lines, delimiter, quote, e),
    }
}

/// Skips the header line, scans every subsequent line in file order, decodes
/// it with the row codec, and records the row's line number under its
/// composite identity key — a later row silently overwriting an earlier row's
/// entry for the same key. The first data row establishes the expected field
/// count; a row that decodes to any other count aborts the build with
/// `ColumnCountMismatch`. The whole table is consumed before the index is
/// returned.
pub fn build_index(desc: &TableDescriptor, lines: &Vec<String>, k0: usize, k1: usize) -> (r:
    Result<RowIndex, StructuralError>)
    requires
        key_cols_in_range(lines.deep_view(), desc.delimiter, desc.quote, k0 as int, k1 as int),
    ensures
        index_post(lines.deep_view(), desc.delimiter, desc.quote, k0 as int, k1 as int, r),
{
    let ghost lv = lines.deep_view();
    let mut entries: Vec<(String, usize)> = Vec::new();
    if lines.len() <= 1 {
        return Ok(RowIndex { entries });
    }
    let first = decode_row(lines[1].as_str(), desc.delimiter, desc.quote);
    let expected = first.len();
    let mut i: usize = 1;
    while i < lines.len()
        invariant
            1 <= i <= lines@.len(),
            lv == lines.deep_view(),
            lv.len() == lines@.len(),
            lv.len() > 1,
            expected as int == spec_expected_count(lv, desc.delimiter, desc.quote),
            k0 < expected,
            k1 < expected,
            counts_ok_upto(lv, desc.delimiter, desc.quote, i as int),
            entries_map(entries@) == spec_index_map_upto(
                lv,
                desc.delimiter,
                desc.quote,
                k0 as int,
                k1 as int,
                i as int,
            ),
        decreases lines@.len() - i,
    {
        let row = decode_row(lines[i].as_str(), desc.delimiter, desc.quote);
        if row.len() != expected {
            proof {
                assert(spec_decode_row(lv[i as int], desc.delimiter, desc.quote).len()
                    != spec_expected_count(lv, desc.delimiter, desc.quote));
                assert(!index_ok(lv, desc.delimiter, desc.quote));
            }
            return Err(
                StructuralError::ColumnCountMismatch {
                    ordinal: i - 1,
                    expected,
                    actual: row.len(),
                },
            );
        }
        let mut key = row[k0].clone();
        key.append(row[k1].as_str());
        proof {
            assert(row.deep_view()[k0 as int] == row@[k0 as int]@);
            assert(row.deep_view()[k1 as int] == row@[k1 as int]@);
            assert(key@ == spec_row_key(lv[i as int], desc.delimiter, desc.quote, k0 as int,
                k1 as int));
        }
        let ghost prev = entries@;
        entries.push((key, i));
        proof {
            assert(entries@.drop_last() =~= prev);
            assert(entries_map(entries@) == spec_index_map_upto(
                lv,
                desc.delimiter,
                desc.quote,
                k0 as int,
                k1 as int,
                i + 1,
            ));
        }
        i = i + 1;
    }
    Ok(RowIndex { entries })
}

/// Every key the index map holds is the identity key of one of the data rows
/// scanned so far, its locator points at such a row, and that row carries
/// exactly this key. The map's domain is finite throughout.
pub proof fn lemma_index_map_range(
    lines: Seq<Seq<char>>,
    delimiter: char,
    quote: Option<char>,
    k0: int,
    k1: int,
    n: int,
)
    requires
        n <= lines.len(),
    ensures
        spec_index_map_upto(lines, delimiter, quote, k0, k1, n).dom().finite(),
        forall|k: Seq<char>|
            #[trigger] spec_index_map_upto(lines, delimiter, quote, k0, k1, n).dom().contains(k)
                ==> {
                let loc = spec_index_map_upto(lines, delimiter, quote, k0, k1, n)[k];
                &&& 1 <= loc < n
                &&& spec_row_key(lines[loc], delimiter, quote, k0, k1) == k
            },
    decreases n,
{
    if n > 1 {
        lemma_index_map_range(lines, delimiter, quote, k0, k1, n - 1);
    }
}

/// With no duplicate identity keys among a table's data rows, the completed
/// index holds exactly one entry per data row.
pub proof fn lemma_index_len(
    lines: Seq<Seq<char>>,
    delimiter: char,
    quote: Option<char>,
    k0: int,
    k1: int,
)
    requires
        lines.len() >= 1,
        forall|i: int, j: int|
            1 <= i < j < lines.len() ==> spec_row_key(lines[i], delimiter, quote, k0, k1)
                != spec_row_key(lines[j], delimiter, quote, k0, k1),
    ensures
        spec_index_map(lines, delimiter, quote, k0, k1).dom().len() == lines.len() - 1,
{
    lemma_index_len_upto(lines, delimiter, quote, k0, k1, lines.len() as int);
}

proof fn lemma_index_len_upto(
    lines: Seq<Seq<char>>,
    delimiter: char,
    quote: Option<char>,
    k0: int,
    k1: int,
    n: int,
)
    requires
        1 <= n <= lines.len(),
        forall|i: int, j: int|
            1 <= i < j < lines.len() ==> spec_row_key(lines[i], delimiter, quote, k0, k1)
                != spec_row_key(lines[j], delimiter, quote, k0, k1),
    ensures
        spec_index_map_upto(lines, delimiter, quote, k0, k1, n).dom().finite(),
        spec_index_map_upto(lines, delimiter, quote, k0, k1, n).dom().len() == n - 1,
    decreases n,
{
    if n == 1 {
        assert(spec_index_map_upto(lines, delimiter, quote, k0, k1, n).dom()
            =~= Set::<Seq<char>>::empty());
    } else {
        lemma_index_len_upto(lines, delimiter, quote, k0, k1, n - 1);
        lemma_index_map_range(lines, delimiter, quote, k0, k1, n - 1);
        let m = spec_index_map_upto(lines, delimiter, quote, k0, k1, n - 1);
        let k = spec_row_key(lines[n - 1], delimiter, quote, k0, k1);
        if m.dom().contains(k) {
            let loc = m[k];
            assert(spec_row_key(lines[loc], delimiter, quote, k0, k1) == k);
            assert(false);
        }
    }
}

} // verus!
