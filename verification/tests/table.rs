use ssv_table::{TableError, TableMap};

fn s(text: &str) -> String {
    text.to_owned()
}

fn keys_of(table: &TableMap<String>) -> Vec<String> {
    table.keys().into_iter().cloned().collect()
}

fn cell(table: &TableMap<String>, row: usize, key: &str) -> Option<String> {
    table.entry(row).unwrap().get(key).cloned()
}

fn row_of(table: &TableMap<String>, row: usize) -> Vec<Option<String>> {
    keys_of(table).iter().map(|k| cell(table, row, k)).collect()
}

fn rows_of(table: &TableMap<String>) -> Vec<Vec<Option<String>>> {
    (0..table.len()).map(|r| row_of(table, r)).collect()
}

fn put(table: &mut TableMap<String>, pairs: &[(&str, &str)]) {
    let mut entry = table.new_entry().last_mut().unwrap();
    for (k, v) in pairs {
        entry.insert(s(k), s(v));
    }
}

fn snow() -> TableMap<String> {
    let mut table = TableMap::new();
    put(&mut table, &[("firstname", "John"), ("lastname", "Snow"), ("profession", "Knower of Nothing")]);
    put(&mut table, &[("profession", "Night King"), ("alive", "false")]);
    table
}

#[test]
fn new_table_is_empty() {
    let table: TableMap<String> = TableMap::new();
    assert_eq!(table.len(), 0);
    assert!(table.keys().is_empty());
    assert!(table.last().is_none());
    assert!(table.entries().is_empty());
}

#[test]
fn two_rows_with_different_keys() {
    let table = snow();
    assert_eq!(table.len(), 2);
    assert_eq!(keys_of(&table), vec![s("firstname"), s("lastname"), s("profession"), s("alive")]);
    assert_eq!(cell(&table, 0, "alive"), None);
    assert_eq!(cell(&table, 1, "firstname"), None);
    assert_eq!(cell(&table, 0, "firstname"), Some(s("John")));
    assert_eq!(cell(&table, 1, "profession"), Some(s("Night King")));
    assert_eq!(cell(&table, 1, "alive"), Some(s("false")));
    assert_eq!(cell(&table, 0, "unknown"), None);
}

#[test]
fn new_entry_is_absent_in_every_column() {
    let mut table = snow();
    table.new_entry();
    assert_eq!(table.len(), 3);
    assert_eq!(row_of(&table, 2), vec![None, None, None, None]);
    assert_eq!(row_of(&table, 0), vec![Some(s("John")), Some(s("Snow")), Some(s("Knower of Nothing")), None]);
}

#[test]
fn insert_returns_previous_value() {
    let mut table: TableMap<String> = TableMap::new();
    table.new_entry();
    let mut entry = table.entry_mut(0).unwrap();
    assert_eq!(entry.insert(s("a"), s("1")), None);
    assert_eq!(entry.insert(s("a"), s("2")), Some(s("1")));
    assert_eq!(entry.get("a"), Some(&s("2")));
    assert_eq!(cell(&table, 0, "a"), Some(s("2")));
    assert_eq!(keys_of(&table), vec![s("a")]);
}

#[test]
fn insert_creates_column_with_earlier_rows_absent() {
    let mut table: TableMap<String> = TableMap::new();
    put(&mut table, &[("a", "1")]);
    put(&mut table, &[("a", "2")]);
    put(&mut table, &[("b", "3")]);
    assert_eq!(
        rows_of(&table),
        vec![vec![Some(s("1")), None], vec![Some(s("2")), None], vec![None, Some(s("3"))]],
    );
}

#[test]
fn get_mut_changes_cell_in_place() {
    let mut table = snow();
    {
        let mut entry = table.entry_mut(0).unwrap();
        match entry.get_mut("lastname") {
            Some(v) => v.push_str("-Stark"),
            None => panic!("lastname is set"),
        }
        assert!(entry.get_mut("alive").is_none());
        assert!(entry.get_mut("unknown").is_none());
    }
    assert_eq!(cell(&table, 0, "lastname"), Some(s("Snow-Stark")));
    assert_eq!(keys_of(&table).len(), 4);
}

#[test]
fn entry_iter_leaves_absent_cells_out() {
    let table = snow();
    let entry = table.entry(1).unwrap();
    let items: Vec<(String, String)> = entry.iter().into_iter().map(|(k, v)| (k.clone(), v.clone())).collect();
    assert_eq!(items, vec![(s("profession"), s("Night King")), (s("alive"), s("false"))]);
    let keys: Vec<String> = entry.keys().into_iter().cloned().collect();
    assert_eq!(keys, vec![s("firstname"), s("lastname"), s("profession"), s("alive")]);
}

#[test]
fn entry_mut_reads_like_entry() {
    let mut table = snow();
    let entry = table.entry_mut(0).unwrap();
    let items: Vec<(String, String)> = entry.iter().into_iter().map(|(k, v)| (k.clone(), v.clone())).collect();
    assert_eq!(
        items,
        vec![(s("firstname"), s("John")), (s("lastname"), s("Snow")), (s("profession"), s("Knower of Nothing"))],
    );
    assert_eq!(entry.keys().len(), 4);
    assert_eq!(entry.get("firstname"), Some(&s("John")));
}

#[test]
fn entries_lists_every_row() {
    let table = snow();
    let entries = table.entries();
    assert_eq!(entries.len(), 2);
    assert_eq!(entries[0].get("firstname"), Some(&s("John")));
    assert_eq!(entries[1].get("alive"), Some(&s("false")));
    assert_eq!(table.last().unwrap().get("profession"), Some(&s("Night King")));
}

#[test]
fn out_of_range_rows_are_refused() {
    let mut table = snow();
    assert!(matches!(table.entry(2), Err(TableError::IndexOutOfRange)));
    assert!(matches!(table.entry_mut(2), Err(TableError::IndexOutOfRange)));
    assert_eq!(table.remove_entry(2), Err(TableError::IndexOutOfRange));
    assert_eq!(table.swap_remove_entry(7), Err(TableError::IndexOutOfRange));
    assert_eq!(table.len(), 2);
    let mut empty: TableMap<String> = TableMap::new();
    assert!(empty.last_mut().is_none());
    assert_eq!(empty.remove_entry(0), Err(TableError::IndexOutOfRange));
}

fn numbered(n: usize) -> TableMap<String> {
    let mut table = TableMap::new();
    for i in 0..n {
        put(&mut table, &[("n", &i.to_string()), ("twice", &(2 * i).to_string())]);
    }
    table
}

fn column(table: &TableMap<String>, key: &str) -> Vec<Option<String>> {
    (0..table.len()).map(|r| cell(table, r, key)).collect()
}

#[test]
fn remove_keeps_order_of_other_rows() {
    let mut table = numbered(5);
    assert_eq!(table.remove_entry(1), Ok(()));
    assert_eq!(table.len(), 4);
    assert_eq!(column(&table, "n"), vec![Some(s("0")), Some(s("2")), Some(s("3")), Some(s("4"))]);
    assert_eq!(column(&table, "twice"), vec![Some(s("0")), Some(s("4")), Some(s("6")), Some(s("8"))]);
}

#[test]
fn swap_remove_moves_last_row_into_place() {
    let mut table = numbered(5);
    assert_eq!(table.swap_remove_entry(1), Ok(()));
    assert_eq!(table.len(), 4);
    assert_eq!(column(&table, "n"), vec![Some(s("0")), Some(s("4")), Some(s("2")), Some(s("3"))]);
    assert_eq!(table.swap_remove_entry(3), Ok(()));
    assert_eq!(column(&table, "n"), vec![Some(s("0")), Some(s("4")), Some(s("2"))]);
}

#[test]
fn columns_stay_as_long_as_the_table() {
    let mut table = numbered(4);
    table.new_entry();
    table.remove_entry(0).unwrap();
    table.swap_remove_entry(1).unwrap();
    let mut other = TableMap::new();
    put(&mut other, &[("other", "x")]);
    table.concatenate(other);
    assert_eq!(table.len(), 4);
    for key in keys_of(&table) {
        assert_eq!(column(&table, &key).len(), 4);
    }
    for row in rows_of(&table) {
        assert_eq!(row.len(), 3);
    }
}

#[test]
fn cleanup_drops_blank_columns_then_blank_rows() {
    let mut table: TableMap<String> = TableMap::new();
    put(&mut table, &[("a", "1"), ("gone", "x")]);
    table.new_entry();
    put(&mut table, &[("b", "2")]);
    table.entry_mut(0).unwrap().get_mut("gone").map(|v| v.clear());
    // a column that holds a value, even an empty one, stays
    table.cleanup();
    assert_eq!(keys_of(&table), vec![s("a"), s("gone"), s("b")]);
    assert_eq!(table.len(), 2);
    assert_eq!(rows_of(&table), vec![vec![Some(s("1")), Some(s("")), None], vec![None, None, Some(s("2"))]]);
}

#[test]
fn cleanup_removes_column_that_is_absent_everywhere() {
    let mut table: TableMap<String> = TableMap::new();
    put(&mut table, &[("only", "x"), ("a", "1")]);
    put(&mut table, &[("b", "2")]);
    table.remove_entry(0).unwrap();
    put(&mut table, &[("a", "3")]);
    table.new_entry();
    assert_eq!(keys_of(&table), vec![s("only"), s("a"), s("b")]);
    assert_eq!(table.len(), 3);
    table.cleanup();
    assert_eq!(keys_of(&table), vec![s("a"), s("b")]);
    assert_eq!(table.len(), 2);
    assert_eq!(rows_of(&table), vec![vec![None, Some(s("2"))], vec![Some(s("3")), None]]);
}

#[test]
fn cleanup_of_rows_without_columns_leaves_nothing() {
    let mut table: TableMap<String> = TableMap::new();
    table.new_entry();
    table.new_entry();
    table.cleanup();
    assert_eq!(table.len(), 0);
    assert!(table.keys().is_empty());
}

#[test]
fn cleanup_twice_is_cleanup_once() {
    let mut table: TableMap<String> = TableMap::new();
    put(&mut table, &[("a", "1"), ("b", "2")]);
    table.new_entry();
    put(&mut table, &[("c", "3")]);
    table.new_entry();
    table.remove_entry(2).unwrap();
    table.cleanup();
    let keys = keys_of(&table);
    let rows = rows_of(&table);
    assert_eq!(keys, vec![s("a"), s("b")]);
    assert_eq!(rows, vec![vec![Some(s("1")), Some(s("2"))]]);
    table.cleanup();
    assert_eq!(keys_of(&table), keys);
    assert_eq!(rows_of(&table), rows);
}

fn abc() -> (TableMap<String>, TableMap<String>, TableMap<String>) {
    let mut a = TableMap::new();
    put(&mut a, &[("x", "a0x"), ("y", "a0y")]);
    put(&mut a, &[("x", "a1x")]);
    let mut b = TableMap::new();
    put(&mut b, &[("z", "b0z"), ("x", "b0x")]);
    let mut c = TableMap::new();
    put(&mut c, &[("w", "c0w"), ("y", "c0y"), ("z", "c0z")]);
    put(&mut c, &[("w", "c1w")]);
    (a, b, c)
}

#[test]
fn concatenate_joins_columns_and_pads_both_ways() {
    let (mut a, b, _) = abc();
    a.concatenate(b);
    assert_eq!(a.len(), 3);
    assert_eq!(keys_of(&a), vec![s("x"), s("y"), s("z")]);
    assert_eq!(
        rows_of(&a),
        vec![
            vec![Some(s("a0x")), Some(s("a0y")), None],
            vec![Some(s("a1x")), None, None],
            vec![Some(s("b0x")), None, Some(s("b0z"))],
        ],
    );
}

#[test]
fn concatenate_is_associative() {
    let (mut a, b, c) = abc();
    a.concatenate(b).concatenate(c);
    let (mut a2, mut b2, c2) = abc();
    b2.concatenate(c2);
    a2.concatenate(b2);
    assert_eq!(keys_of(&a), vec![s("x"), s("y"), s("z"), s("w")]);
    assert_eq!(keys_of(&a), keys_of(&a2));
    assert_eq!(rows_of(&a), rows_of(&a2));
    assert_eq!(a.len(), 5);
    assert_eq!(row_of(&a, 3), vec![None, Some(s("c0y")), Some(s("c0z")), Some(s("c0w"))]);
}

#[test]
fn concatenate_with_empty_tables() {
    let (mut a, _, _) = abc();
    a.concatenate(TableMap::new());
    assert_eq!(a.len(), 2);
    assert_eq!(keys_of(&a), vec![s("x"), s("y")]);
    let mut empty: TableMap<String> = TableMap::new();
    let (a2, _, _) = abc();
    empty.concatenate(a2);
    assert_eq!(rows_of(&empty), rows_of(&a));
    let mut rows_only: TableMap<String> = TableMap::new();
    rows_only.new_entry();
    let (a3, _, _) = abc();
    rows_only.concatenate(a3);
    assert_eq!(rows_only.len(), 3);
    assert_eq!(row_of(&rows_only, 0), vec![None, None]);
    assert_eq!(row_of(&rows_only, 1), vec![Some(s("a0x")), Some(s("a0y"))]);
}

#[test]
fn clone_is_independent_copy() {
    let mut table = snow();
    let copy = table.clone();
    table.entry_mut(0).unwrap().insert(s("firstname"), s("Jon"));
    table.remove_entry(1).unwrap();
    assert_eq!(copy.len(), 2);
    assert_eq!(keys_of(&copy), vec![s("firstname"), s("lastname"), s("profession"), s("alive")]);
    assert_eq!(cell(&copy, 0, "firstname"), Some(s("John")));
    assert_eq!(cell(&copy, 1, "alive"), Some(s("false")));
    assert_eq!(cell(&table, 0, "firstname"), Some(s("Jon")));
}

#[test]
fn iter_mut_changes_present_cells_in_place() {
    let mut table = snow();
    {
        let mut entry = table.entry_mut(1).unwrap();
        let items = entry.iter_mut();
        let keys: Vec<String> = items.iter().map(|(k, _)| (*k).clone()).collect();
        assert_eq!(keys, vec![s("profession"), s("alive")]);
        for (key, value) in items {
            value.insert_str(0, key);
        }
    }
    assert_eq!(table.len(), 2);
    assert_eq!(
        rows_of(&table),
        vec![
            vec![Some(s("John")), Some(s("Snow")), Some(s("Knower of Nothing")), None],
            vec![None, None, Some(s("professionNight King")), Some(s("alivefalse"))],
        ],
    );
    let mut blank: TableMap<String> = TableMap::new();
    blank.new_entry();
    assert!(blank.entry_mut(0).unwrap().iter_mut().is_empty());
}

#[test]
fn map_keeps_keys_rows_and_absences() {
    let mut table = numbered(3);
    table.new_entry().last_mut().unwrap().insert(s("blank"), s("x"));
    table.remove_entry(3).unwrap();
    let lengths: TableMap<usize> = table.map(|v: &String| v.len() + 10);
    assert_eq!(lengths.len(), 3);
    let keys: Vec<String> = lengths.keys().into_iter().cloned().collect();
    assert_eq!(keys, vec![s("n"), s("twice"), s("blank")]);
    assert_eq!(lengths.entry(2).unwrap().get("twice"), Some(&11));
    assert_eq!(lengths.entry(0).unwrap().get("n"), Some(&11));
    assert_eq!(lengths.entry(1).unwrap().get("blank"), None);
    assert!(TableMap::<String>::new().map(|v: &String| v.len()).keys().is_empty());
}
