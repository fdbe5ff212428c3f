use ssv_table::{SSVTable, TableError, TableMap};

fn s(text: &str) -> String {
    text.to_owned()
}

fn keys_of(table: &TableMap<String>) -> Vec<String> {
    table.keys().into_iter().cloned().collect()
}

fn rows_of(table: &TableMap<String>) -> Vec<Vec<Option<String>>> {
    let keys = keys_of(table);
    (0..table.len())
        .map(|r| keys.iter().map(|k| table.entry(r).unwrap().get(k).cloned()).collect())
        .collect()
}

fn put(table: &mut TableMap<String>, pairs: &[(&str, &str)]) {
    let mut entry = table.new_entry().last_mut().unwrap();
    for (k, v) in pairs {
        entry.insert(s(k), s(v));
    }
}

fn snow() -> TableMap<String> {
    let mut table = TableMap::new();
    put(&mut table, &[("firstname", "John"), ("lastname", "Snow"), ("profession", "Knower of Nothing")]);
    put(&mut table, &[("profession", "Night King"), ("alive", "false")]);
    table
}

#[test]
fn text_of_two_rows() {
    assert_eq!(
        snow().to_ssv(),
        "firstname;lastname;profession;alive\nJohn;Snow;Knower of Nothing;\n;;Night King;false\n",
    );
}

#[test]
fn text_of_table_without_columns_is_empty() {
    let mut table: TableMap<String> = TableMap::new();
    assert_eq!(table.to_ssv(), "");
    table.new_entry();
    assert_eq!(table.to_ssv(), "");
}

#[test]
fn text_of_table_without_rows_is_header() {
    let mut table = snow();
    table.remove_entry(0).unwrap();
    table.remove_entry(0).unwrap();
    assert_eq!(table.to_ssv(), "firstname;lastname;profession;alive\n");
}

#[test]
fn text_of_single_column() {
    let mut table: TableMap<String> = TableMap::new();
    put(&mut table, &[("a", "1")]);
    table.new_entry();
    put(&mut table, &[("a", "3")]);
    assert_eq!(table.to_ssv(), "a\n1\n\n3\n");
}

#[test]
fn two_rows_read_back() {
    let text = snow().to_ssv();
    let back = TableMap::from_ssv(&text).unwrap();
    assert_eq!(back.len(), 2);
    assert_eq!(keys_of(&back), vec![s("firstname"), s("lastname"), s("profession"), s("alive")]);
    assert_eq!(back.entry(0).unwrap().get("alive"), None);
    assert_eq!(back.entry(1).unwrap().get("firstname"), None);
    assert_eq!(back.entry(1).unwrap().get("lastname"), None);
    assert_eq!(rows_of(&back), rows_of(&snow()));
    assert_eq!(back.to_ssv(), text);
}

#[test]
fn round_trip_keeps_keys_rows_and_absences() {
    let mut table: TableMap<String> = TableMap::new();
    put(&mut table, &[("a", "1"), ("b", "two words"), ("c", "\"quoted\"")]);
    table.new_entry();
    put(&mut table, &[("c", "3"), ("d", "x\ry")]);
    put(&mut table, &[("a", "\r")]);
    let back = TableMap::from_ssv(&table.to_ssv()).unwrap();
    assert_eq!(keys_of(&back), keys_of(&table));
    assert_eq!(rows_of(&back), rows_of(&table));
    assert_eq!(back.len(), 4);
    assert_eq!(rows_of(&back)[1], vec![None, None, None, None]);
}

#[test]
fn empty_text_is_empty_table() {
    let table = TableMap::from_ssv("").unwrap();
    assert_eq!(table.len(), 0);
    assert!(table.keys().is_empty());
}

#[test]
fn header_alone() {
    for text in ["a;b", "a;b\n", "a;b\r\n", "a;b\n\n\n"] {
        let table = TableMap::from_ssv(text).unwrap();
        assert_eq!(keys_of(&table), vec![s("a"), s("b")]);
        assert_eq!(table.len(), 0);
    }
}

#[test]
fn empty_first_line_is_one_empty_key() {
    let table = TableMap::from_ssv("\nx\n").unwrap();
    assert_eq!(keys_of(&table), vec![s("")]);
    assert_eq!(rows_of(&table), vec![vec![Some(s("x"))]]);
}

#[test]
fn empty_lines_are_skipped() {
    let table = TableMap::from_ssv("a;b\n1;2\n\n\n3;4\n\n").unwrap();
    assert_eq!(rows_of(&table), vec![vec![Some(s("1")), Some(s("2"))], vec![Some(s("3")), Some(s("4"))]]);
}

#[test]
fn last_line_needs_no_line_break() {
    let table = TableMap::from_ssv("a;b\n1;2\n3;4").unwrap();
    assert_eq!(rows_of(&table), vec![vec![Some(s("1")), Some(s("2"))], vec![Some(s("3")), Some(s("4"))]]);
}

#[test]
fn carriage_return_before_line_break_is_dropped() {
    let table = TableMap::from_ssv("a;b\r\n1;2\r\n;4\r\n\r\n5;6\r").unwrap();
    assert_eq!(keys_of(&table), vec![s("a"), s("b")]);
    assert_eq!(
        rows_of(&table),
        vec![vec![Some(s("1")), Some(s("2"))], vec![None, Some(s("4"))], vec![Some(s("5")), Some(s("6\r"))]],
    );
}

#[test]
fn empty_field_is_absent() {
    let table = TableMap::from_ssv("a;b;c\n;;\n;x;\n").unwrap();
    assert_eq!(rows_of(&table), vec![vec![None, None, None], vec![None, Some(s("x")), None]]);
}

#[test]
fn short_row_leaves_trailing_columns_absent() {
    let table = TableMap::from_ssv("a;b;c\n1\n1;2\n").unwrap();
    assert_eq!(table.len(), 2);
    assert_eq!(rows_of(&table), vec![vec![Some(s("1")), None, None], vec![Some(s("1")), Some(s("2")), None]]);
}

#[test]
fn long_row_is_refused() {
    assert!(matches!(TableMap::from_ssv("a;b\n1;2;3\n"), Err(TableError::IndexOutOfRange)));
    assert!(matches!(TableMap::from_ssv("a;b\n1;2\n1;2;\n"), Err(TableError::IndexOutOfRange)));
    assert!(matches!(SSVTable::from_ssv("a\n;\n"), Err(TableError::IndexOutOfRange)));
}

#[test]
fn repeated_key_is_refused() {
    assert!(matches!(TableMap::from_ssv("a;b;a\n1;2;3\n"), Err(TableError::DuplicateKey)));
    assert!(matches!(TableMap::from_ssv(";\n"), Err(TableError::DuplicateKey)));
    assert!(matches!(TableMap::from_ssv("a;a\n1;2;3\n"), Err(TableError::DuplicateKey)));
}

#[test]
fn text_outside_ascii() {
    let mut table: TableMap<String> = TableMap::new();
    put(&mut table, &[("prénom", "Zoë"), ("猫", "二")]);
    let text = table.to_ssv();
    assert_eq!(text, "prénom;猫\nZoë;二\n");
    let back = TableMap::from_ssv(&text).unwrap();
    assert_eq!(keys_of(&back), vec![s("prénom"), s("猫")]);
    assert_eq!(rows_of(&back), vec![vec![Some(s("Zoë")), Some(s("二"))]]);
}

#[test]
fn present_empty_value_reads_back_absent() {
    let mut table: TableMap<String> = TableMap::new();
    put(&mut table, &[("a", ""), ("b", "x")]);
    assert_eq!(table.to_ssv(), "a;b\n;x\n");
    let back = TableMap::from_ssv(&table.to_ssv()).unwrap();
    assert_eq!(rows_of(&back), vec![vec![None, Some(s("x"))]]);
}

#[test]
fn errors_say_what_went_wrong() {
    assert_eq!(TableError::IndexOutOfRange.message(), "a row or column position lies outside the table");
    assert_eq!(TableError::DuplicateKey.message(), "a header names the same column twice");
}
