use mash::{
    create_selector, delimiter_byte, filter_targets, process_target, select_record, select_rows,
    write_rows, MashError,
};

fn lines(items: &[&str]) -> Vec<String> {
    items.iter().map(|s| s.to_string()).collect()
}

fn record(items: &[&str]) -> Vec<String> {
    lines(items)
}

const TARGET: &[u8] = b"foo\t1\nbaz\t2\nbar\t3\n";

#[test]
fn scenario_members_kept_in_order() {
    let selector = create_selector(&lines(&["foo", "bar"]));
    let (out, n) = process_target(&selector, TARGET, b'\t', 1, false).unwrap();
    assert_eq!(out, b"foo\t1\nbar\t3\n".to_vec());
    assert_eq!(n, 2);
}

#[test]
fn scenario_invert_keeps_non_members() {
    let selector = create_selector(&lines(&["foo", "bar"]));
    let (out, n) = process_target(&selector, TARGET, b'\t', 1, true).unwrap();
    assert_eq!(out, b"baz\t2\n".to_vec());
    assert_eq!(n, 1);
}

#[test]
fn scenario_empty_selector() {
    let selector = create_selector(&Vec::new());
    let (out, n) = process_target(&selector, TARGET, b'\t', 1, false).unwrap();
    assert!(out.is_empty());
    assert_eq!(n, 0);
    let (out, n) = process_target(&selector, TARGET, b'\t', 1, true).unwrap();
    assert_eq!(out, TARGET.to_vec());
    assert_eq!(n, 3);
}

#[test]
fn scenario_two_targets_keep_file_order() {
    let selector = create_selector(&lines(&["zed", "apple"]));
    let first = b"zed\t1\nother\t2\n".to_vec();
    let second = b"apple\t3\nzed\t4\n".to_vec();
    let out = filter_targets(&selector, &vec![first, second], b'\t', 1, false).unwrap();
    assert_eq!(out, b"zed\t1\napple\t3\nzed\t4\n".to_vec());
}

#[test]
fn no_targets_give_no_output() {
    let selector = create_selector(&lines(&["a"]));
    let out = filter_targets(&selector, &Vec::new(), b'\t', 1, true).unwrap();
    assert!(out.is_empty());
}

#[test]
fn presence_follows_membership_xor_invert() {
    let selector = create_selector(&lines(&["x", "y"]));
    let data = b"1,x\n2,q\n3,y\n4,x\n5,z\n";
    let (kept, _) = process_target(&selector, data, b',', 2, false).unwrap();
    let (dropped, _) = process_target(&selector, data, b',', 2, true).unwrap();
    assert_eq!(kept, b"1,x\n3,y\n4,x\n".to_vec());
    assert_eq!(dropped, b"2,q\n5,z\n".to_vec());
}

#[test]
fn same_inputs_same_output() {
    let data = vec![TARGET.to_vec(), b"bar\t9\n".to_vec()];
    let a = filter_targets(&create_selector(&lines(&["bar"])), &data, b'\t', 1, false).unwrap();
    let b = filter_targets(&create_selector(&lines(&["bar"])), &data, b'\t', 1, false).unwrap();
    assert_eq!(a, b);
    assert_eq!(a, b"bar\t3\nbar\t9\n".to_vec());
}

#[test]
fn duplicate_selector_lines_collapse() {
    let once = create_selector(&lines(&["foo"]));
    let twice = create_selector(&lines(&["foo", "bar", "foo"]));
    assert!(twice.contains("foo"));
    assert!(twice.contains("bar"));
    assert!(!twice.contains("baz"));
    let (a, _) = process_target(&once, TARGET, b'\t', 1, true).unwrap();
    let (b, _) = process_target(&create_selector(&lines(&["foo", "foo"])), TARGET, b'\t', 1, true)
        .unwrap();
    assert_eq!(a, b);
    assert_eq!(a, b"baz\t2\nbar\t3\n".to_vec());
}

#[test]
fn selector_matches_exactly() {
    let selector = create_selector(&lines(&["Foo", " bar"]));
    assert!(selector.contains("Foo"));
    assert!(!selector.contains("foo"));
    assert!(!selector.contains("bar"));
    assert!(selector.contains(" bar"));
}

#[test]
fn last_column_is_valid() {
    let selector = create_selector(&lines(&["3"]));
    let (out, n) = process_target(&selector, TARGET, b'\t', 2, false).unwrap();
    assert_eq!(out, b"bar\t3\n".to_vec());
    assert_eq!(n, 1);
}

#[test]
fn column_past_the_last_fails() {
    let selector = create_selector(&lines(&["foo"]));
    match process_target(&selector, TARGET, b'\t', 3, false) {
        Err(MashError::ColumnOutOfRange { row, fields }) => {
            assert_eq!(row, 0);
            assert_eq!(fields, 2);
        }
        other => panic!("unexpected result: {:?}", other),
    }
}

#[test]
fn column_zero_fails() {
    let selector = create_selector(&lines(&["foo"]));
    assert!(matches!(
        process_target(&selector, TARGET, b'\t', 0, false),
        Err(MashError::ColumnOutOfRange { row: 0, fields: 2 })
    ));
}

#[test]
fn unequal_rows_are_malformed() {
    let selector = create_selector(&lines(&["a"]));
    let data = b"a\tb\nc\n";
    assert!(matches!(
        process_target(&selector, data, b'\t', 1, false),
        Err(MashError::Malformed(_))
    ));
}

#[test]
fn invalid_utf8_is_malformed() {
    let selector = create_selector(&lines(&["a"]));
    let data = b"a\t\xff\xfe\n";
    assert!(matches!(
        process_target(&selector, data, b'\t', 1, false),
        Err(MashError::Malformed(_))
    ));
}

#[test]
fn failing_target_stops_the_run() {
    let selector = create_selector(&lines(&["foo"]));
    let targets = vec![TARGET.to_vec(), b"foo\n".to_vec()];
    assert!(matches!(
        filter_targets(&selector, &targets, b'\t', 2, false),
        Err(MashError::ColumnOutOfRange { row: 0, fields: 1 })
    ));
}

#[test]
fn quoted_fields_are_read_and_written() {
    let selector = create_selector(&lines(&["a,b"]));
    let data = b"\"a,b\",1\nc,2\n";
    let (out, n) = process_target(&selector, data, b',', 1, false).unwrap();
    assert_eq!(out, b"\"a,b\",1\n".to_vec());
    assert_eq!(n, 1);
}

#[test]
fn delimiter_is_first_byte() {
    assert_eq!(delimiter_byte("\t"), Some(b'\t'));
    assert_eq!(delimiter_byte(",;"), Some(b','));
    assert_eq!(delimiter_byte(""), None);
}

#[test]
fn select_record_tests_one_row() {
    let selector = create_selector(&lines(&["k"]));
    let row = record(&["1", "k"]);
    assert_eq!(select_record(&selector, &row, 2, false), Some(true));
    assert_eq!(select_record(&selector, &row, 2, true), Some(false));
    assert_eq!(select_record(&selector, &row, 1, false), Some(false));
    assert_eq!(select_record(&selector, &row, 1, true), Some(true));
    assert_eq!(select_record(&selector, &row, 3, false), None);
    assert_eq!(select_record(&selector, &row, 0, false), None);
}

#[test]
fn select_rows_keeps_order() {
    let selector = create_selector(&lines(&["b", "a"]));
    let rows = vec![record(&["a", "1"]), record(&["c", "2"]), record(&["b", "3"])];
    let kept = select_rows(&selector, &rows, 1, false).unwrap();
    assert_eq!(kept, vec![record(&["a", "1"]), record(&["b", "3"])]);
    let kept = select_rows(&selector, &rows, 1, true).unwrap();
    assert_eq!(kept, vec![record(&["c", "2"])]);
}

#[test]
fn select_rows_reports_first_short_row() {
    let selector = create_selector(&lines(&["a"]));
    let rows = vec![record(&["a", "1"]), record(&["x"]), record(&[])];
    assert!(matches!(
        select_rows(&selector, &rows, 2, false),
        Err(MashError::ColumnOutOfRange { row: 1, fields: 1 })
    ));
}

#[test]
fn write_rows_quotes_and_terminates() {
    let rows = vec![record(&["a;b", "c"]), record(&["d", ""])];
    let out = write_rows(&rows, b';').unwrap();
    assert_eq!(out, b"\"a;b\";c\nd;\n".to_vec());
    assert_eq!(write_rows(&Vec::new(), b';').unwrap(), Vec::<u8>::new());
}
