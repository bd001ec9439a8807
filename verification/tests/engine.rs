use csv_diff::catalog::build_catalog;
use csv_diff::codec::{decode_row, encode_row};
use csv_diff::descriptor::{parse_args, TableDescriptor};
use csv_diff::diff::diff;
use csv_diff::error::StructuralError;
use csv_diff::fetch::fetch_row;
use csv_diff::index::build_index;
use csv_diff::intersect::intersect;

fn desc(delimiter: char, quote: Option<char>) -> TableDescriptor {
    TableDescriptor { location: "table.csv".to_string(), delimiter, quote }
}

fn lines(rows: &[&str]) -> Vec<String> {
    rows.iter().map(|r| r.to_string()).collect()
}

#[test]
fn decode_row_basic() {
    let fields = decode_row("a,b,c", ',', None);
    assert_eq!(fields, vec!["a".to_string(), "b".to_string(), "c".to_string()]);
}

#[test]
fn decode_row_empty_line_yields_one_empty_field() {
    let fields = decode_row("", ',', None);
    assert_eq!(fields, vec!["".to_string()]);
}

#[test]
fn decode_row_adjacent_delimiters() {
    assert_eq!(
        decode_row("a,,b", ',', None),
        vec!["a".to_string(), "".to_string(), "b".to_string()]
    );
    assert_eq!(decode_row("a,", ',', None), vec!["a".to_string(), "".to_string()]);
    assert_eq!(decode_row(",a", ',', None), vec!["".to_string(), "a".to_string()]);
}

#[test]
fn decode_row_strips_line_terminator() {
    assert_eq!(decode_row("a,b\n", ',', None), vec!["a".to_string(), "b".to_string()]);
    assert_eq!(decode_row("a,b\r\n", ',', None), vec!["a".to_string(), "b".to_string()]);
}

#[test]
fn decode_row_trims_one_quote_pair() {
    assert_eq!(
        decode_row("'a','b'", ',', Some('\'')),
        vec!["a".to_string(), "b".to_string()]
    );
    // unquoted fields pass through untouched
    assert_eq!(
        decode_row("a,'b'", ',', Some('\'')),
        vec!["a".to_string(), "b".to_string()]
    );
    // only one leading and one trailing quote are removed
    assert_eq!(decode_row("''x''", ',', Some('\'')), vec!["'x'".to_string()]);
    // a field of one quote character becomes empty
    assert_eq!(decode_row("'", ',', Some('\'')), vec!["".to_string()]);
}

#[test]
fn parse_args_builds_descriptor() {
    let d = parse_args(&"data.csv".to_string(), &",".to_string(), &"'".to_string()).unwrap();
    assert_eq!(d.location, "data.csv".to_string());
    assert_eq!(d.delimiter, ',');
    assert_eq!(d.quote, Some('\''));
}

#[test]
fn parse_args_empty_quote_means_none() {
    let d = parse_args(&"data.csv".to_string(), &";".to_string(), &"".to_string()).unwrap();
    assert_eq!(d.delimiter, ';');
    assert_eq!(d.quote, None);
}

#[test]
fn parse_args_empty_delimiter_is_invalid() {
    let r = parse_args(&"data.csv".to_string(), &"".to_string(), &"'".to_string());
    assert_eq!(r, Err(StructuralError::InvalidConfiguration));
}

#[test]
fn build_catalog_assigns_ordinals() {
    let t = lines(&["name,age,city", "Alex,38,NYC"]);
    let c = build_catalog(&desc(',', None), &t).unwrap();
    assert_eq!(c.names, vec!["name".to_string(), "age".to_string(), "city".to_string()]);
    assert_eq!(c.ordinal_of("name"), Some(0));
    assert_eq!(c.ordinal_of("age"), Some(1));
    assert_eq!(c.ordinal_of("city"), Some(2));
    assert_eq!(c.ordinal_of("town"), None);
}

#[test]
fn build_catalog_empty_table_is_header_missing() {
    let t: Vec<String> = Vec::new();
    assert_eq!(
        build_catalog(&desc(',', None), &t),
        Err(StructuralError::HeaderMissing)
    );
}

#[test]
fn build_catalog_rejects_duplicate_column() {
    let t = lines(&["a,b,a,b"]);
    assert_eq!(
        build_catalog(&desc(',', None), &t),
        Err(StructuralError::DuplicateColumn("a".to_string()))
    );
}

// Building a catalog twice over the same table yields identical values.
#[test]
fn build_catalog_is_deterministic() {
    let t = lines(&["name,age,city", "Alex,38,NYC"]);
    let c1 = build_catalog(&desc(',', None), &t).unwrap();
    let c2 = build_catalog(&desc(',', None), &t).unwrap();
    assert_eq!(c1.names, c2.names);
}

#[test]
fn build_index_records_line_numbers() {
    let t = lines(&["name,age,city", "Alex,38,NYC", "Bo,7,LA"]);
    let idx = build_index(&desc(',', None), &t, 0, 1).unwrap();
    assert_eq!(idx.get("Alex38"), Some(1));
    assert_eq!(idx.get("Bo7"), Some(2));
    assert_eq!(idx.get("Alex39"), None);
    let mut keys = idx.keys();
    keys.sort();
    assert_eq!(keys, vec!["Alex38".to_string(), "Bo7".to_string()]);
}

#[test]
fn build_index_header_only_table_is_empty() {
    let t = lines(&["name,age,city"]);
    let idx = build_index(&desc(',', None), &t, 0, 1).unwrap();
    assert_eq!(idx.entries.len(), 0);
    assert!(idx.keys().is_empty());
}

#[test]
fn build_index_column_count_mismatch() {
    let t = lines(&["name,age,city", "Alex,38,NYC", "Bo,7"]);
    assert_eq!(
        build_index(&desc(',', None), &t, 0, 1),
        Err(StructuralError::ColumnCountMismatch { ordinal: 1, expected: 3, actual: 2 })
    );
}

#[test]
fn build_index_last_write_wins_on_duplicate_key() {
    let t = lines(&["name,age,city", "Alex,38,NYC", "Alex,38,LA"]);
    let idx = build_index(&desc(',', None), &t, 0, 1).unwrap();
    assert_eq!(idx.get("Alex38"), Some(2));
    assert_eq!(idx.keys().len(), 1);
}

// With no duplicate identity keys, the index holds one entry per data row.
#[test]
fn build_index_one_entry_per_row() {
    let t = lines(&["k0,k1,v", "a,1,x", "b,2,y", "c,3,z", "d,4,w"]);
    let idx = build_index(&desc(',', None), &t, 0, 1).unwrap();
    assert_eq!(idx.keys().len(), 4);
    assert_eq!(idx.entries.len(), 4);
}

// Intersecting with itself is the identity, with the empty set empty, and commutative on sets.
#[test]
fn intersect_with_self_is_identity() {
    let s = vec!["a".to_string(), "b".to_string(), "c".to_string()];
    assert_eq!(intersect(&s, &s), s);
}

#[test]
fn intersect_with_empty_is_empty() {
    let s = vec!["a".to_string(), "b".to_string()];
    let none: Vec<String> = Vec::new();
    assert!(intersect(&s, &none).is_empty());
    assert!(intersect(&none, &s).is_empty());
}

#[test]
fn intersect_is_commutative_on_sets() {
    let s = vec!["a".to_string(), "b".to_string(), "c".to_string()];
    let t = vec!["c".to_string(), "x".to_string(), "a".to_string()];
    let mut st = intersect(&s, &t);
    let mut ts = intersect(&t, &s);
    st.sort();
    ts.sort();
    assert_eq!(st, vec!["a".to_string(), "c".to_string()]);
    assert_eq!(st, ts);
}

#[test]
fn fetch_row_reads_exactly_one_row() {
    let t = lines(&["name,age", "Alex,38", "Bo,7"]);
    let row = fetch_row(&desc(',', None), &t, 2).unwrap();
    assert_eq!(row, vec!["Bo".to_string(), "7".to_string()]);
}

#[test]
fn fetch_row_out_of_range_is_seek_error() {
    let t = lines(&["name,age", "Alex,38"]);
    assert_eq!(fetch_row(&desc(',', None), &t, 2), Err(StructuralError::SeekError));
}

// A table diffed against itself yields no difference.
#[test]
fn diff_identical_tables_is_empty() {
    let t = lines(&["name,age,city", "Alex,38,NYC", "Bo,7,LA"]);
    let d = desc(',', None);
    let records = diff(&d, &t, &d, &t, 0, 1).unwrap();
    assert!(records.is_empty());
}

// Tables sharing no column produce no difference, whatever the rows hold.
#[test]
fn diff_no_shared_columns_is_empty() {
    let t1 = lines(&["name,age", "Alex,38"]);
    let t2 = lines(&["first,years", "Alex,38"]);
    let d = desc(',', None);
    let records = diff(&d, &t1, &d, &t2, 0, 1).unwrap();
    assert!(records.is_empty());
}

// Tables sharing no identity key produce no difference.
#[test]
fn diff_no_shared_keys_is_empty() {
    let t1 = lines(&["name,age,city", "Alex,38,NYC"]);
    let t2 = lines(&["name,age,city", "Bo,7,NYC"]);
    let d = desc(',', None);
    let records = diff(&d, &t1, &d, &t2, 0, 1).unwrap();
    assert!(records.is_empty());
}

// Scenario A: matching key, equal shared values, unshared third column.
#[test]
fn diff_scenario_matching_rows() {
    let t1 = lines(&["name,age,city", "Alex,38,NYC"]);
    let t2 = lines(&["name,age,town", "Alex,38,LA"]);
    let d = desc(',', None);
    let records = diff(&d, &t1, &d, &t2, 0, 1).unwrap();
    assert!(records.is_empty());
}

// Scenario B: a changed key-column value makes the rows unrelated.
#[test]
fn diff_scenario_changed_key_column() {
    let t1 = lines(&["name,age,city", "Alex,39,NYC"]);
    let t2 = lines(&["name,age,town", "Alex,38,Boston"]);
    let d = desc(',', None);
    let records = diff(&d, &t1, &d, &t2, 0, 1).unwrap();
    assert!(records.is_empty());
}

// Scenario C: a column-count drift aborts the run before any comparison.
#[test]
fn diff_scenario_column_count_drift() {
    let t1 = lines(&["name,age,city", "Alex,38,NYC", "Bo,7,LA,extra"]);
    let t2 = lines(&["name,age,city", "Alex,38,NYC"]);
    let d = desc(',', None);
    assert_eq!(
        diff(&d, &t1, &d, &t2, 0, 1),
        Err(StructuralError::ColumnCountMismatch { ordinal: 1, expected: 3, actual: 4 })
    );
}

#[test]
fn diff_reports_a_differing_value() {
    let t1 = lines(&["name,age,city", "Alex,38,NYC"]);
    let t2 = lines(&["name,age,city", "Alex,38,LA"]);
    let d = desc(',', None);
    let records = diff(&d, &t1, &d, &t2, 0, 1).unwrap();
    assert_eq!(records.len(), 1);
    assert_eq!(records[0].key, "Alex38".to_string());
    assert_eq!(records[0].column, "city".to_string());
    assert_eq!(records[0].left_value, "NYC".to_string());
    assert_eq!(records[0].right_value, "LA".to_string());
}

#[test]
fn diff_resolves_column_ordinals_per_table() {
    let t1 = lines(&["name,age,city,zip", "Alex,38,NYC,10001"]);
    let t2 = lines(&["name,age,zip,city", "Alex,38,10001,LA"]);
    let d = desc(',', None);
    let records = diff(&d, &t1, &d, &t2, 0, 1).unwrap();
    assert_eq!(records.len(), 1);
    assert_eq!(records[0].column, "city".to_string());
    assert_eq!(records[0].left_value, "NYC".to_string());
    assert_eq!(records[0].right_value, "LA".to_string());
}

#[test]
fn diff_tables_with_different_delimiters_and_quotes() {
    let t1 = lines(&["name,age,city", "Alex,38,NYC"]);
    let t2 = lines(&["name;age;city", "'Alex';'38';'Boston'"]);
    let d1 = desc(',', None);
    let d2 = desc(';', Some('\''));
    let records = diff(&d1, &t1, &d2, &t2, 0, 1).unwrap();
    assert_eq!(records.len(), 1);
    assert_eq!(records[0].key, "Alex38".to_string());
    assert_eq!(records[0].column, "city".to_string());
    assert_eq!(records[0].left_value, "NYC".to_string());
    assert_eq!(records[0].right_value, "Boston".to_string());
}

#[test]
fn diff_emits_one_record_per_differing_key_and_column() {
    let t1 = lines(&["name,age,city,job", "Alex,38,NYC,cook", "Bo,7,LA,none"]);
    let t2 = lines(&["name,age,city,job", "Alex,38,Boston,chef", "Bo,7,LA,none"]);
    let d = desc(',', None);
    let mut records = diff(&d, &t1, &d, &t2, 0, 1).unwrap();
    records.sort_by(|a, b| a.column.cmp(&b.column));
    assert_eq!(records.len(), 2);
    assert_eq!(records[0].column, "city".to_string());
    assert_eq!(records[0].left_value, "NYC".to_string());
    assert_eq!(records[0].right_value, "Boston".to_string());
    assert_eq!(records[1].column, "job".to_string());
    assert_eq!(records[1].left_value, "cook".to_string());
    assert_eq!(records[1].right_value, "chef".to_string());
}

#[test]
fn diff_propagates_catalog_errors_left_first() {
    let empty: Vec<String> = Vec::new();
    let t = lines(&["a,b", "1,2"]);
    let d = desc(',', None);
    assert_eq!(diff(&d, &empty, &d, &t, 0, 1), Err(StructuralError::HeaderMissing));
    assert_eq!(diff(&d, &t, &d, &empty, 0, 1), Err(StructuralError::HeaderMissing));
    let dup = lines(&["a,a", "1,2"]);
    assert_eq!(
        diff(&d, &dup, &d, &t, 0, 1),
        Err(StructuralError::DuplicateColumn("a".to_string()))
    );
}

// Joining decoded fields with the same delimiter and quote, then
// decoding again, reproduces the fields.
#[test]
fn encode_decode_roundtrip_without_quote() {
    let fields = vec!["Alex".to_string(), "38".to_string(), "NYC".to_string()];
    let line = encode_row(&fields, ',', None);
    assert_eq!(line, "Alex,38,NYC".to_string());
    assert_eq!(decode_row(&line, ',', None), fields);
}

#[test]
fn encode_decode_roundtrip_with_quote() {
    let fields = vec!["Alex".to_string(), "".to_string(), "NY C".to_string()];
    let line = encode_row(&fields, ',', Some('\''));
    assert_eq!(line, "'Alex','','NY C'".to_string());
    assert_eq!(decode_row(&line, ',', Some('\'')), fields);
}

#[test]
fn decode_then_encode_reproduces_a_plain_line() {
    let line = "Alex,38,NYC";
    let fields = decode_row(line, ',', None);
    assert_eq!(encode_row(&fields, ',', None), line.to_string());
}
