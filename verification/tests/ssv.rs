use ssv_table::{CSVFormatable, SSVTable, TableError, TableMap};

const SAMPLE: &str = "firstname;lastname;profession;alive;cats;lost\n\
\"John\";\"Snow\";\"Knower of Nothing\";;;\n\
;;\"Night King\";false;;\n\
\"Michelle\";;;;1;true\n\
\"Daenyris\";;\"Mad \\\"Queen\\\"\";;;\n";

fn s(text: &str) -> String {
    text.to_owned()
}

fn keys_of(table: &TableMap<String>) -> Vec<String> {
    table.keys().into_iter().cloned().collect()
}

fn built() -> SSVTable {
    let mut table = SSVTable::new();
    {
        let mut entry = table.new_entry().last_mut().unwrap();
        entry.insert("firstname", "John");
        entry.insert("lastname", "Snow");
        entry.insert("profession", "Knower of Nothing");
    }
    {
        let mut entry = table.new_entry().last_mut().unwrap();
        entry.insert("profession", "Night King");
        entry.insert("alive", false);
    }
    {
        let mut entry = table.new_entry().last_mut().unwrap();
        entry.insert("firstname", "Michelle");
        entry.insert("cats", 1);
        entry.insert("lost", true);
    }
    {
        let mut entry = table.new_entry().last_mut().unwrap();
        entry.insert("firstname", "Daenyris");
        entry.insert("profession", "Mad \"Queen\"");
    }
    table
}

#[test]
fn load() {
    let table = TableMap::from_ssv(SAMPLE).unwrap().extract_json().unwrap();
    assert_eq!(table.len(), 4);
    let keys: Vec<String> = table.keys().into_iter().cloned().collect();
    assert_eq!(keys, vec![s("firstname"), s("lastname"), s("profession"), s("alive"), s("cats"), s("lost")]);
    assert_eq!(table.entry(0).unwrap().get("firstname"), Some(&serde_json::Value::from("John")));
    assert_eq!(table.entry(1).unwrap().get("alive"), Some(&serde_json::Value::from(false)));
    assert_eq!(table.entry(2).unwrap().get("cats"), Some(&serde_json::Value::from(1)));
    assert_eq!(table.entry(3).unwrap().get("profession"), Some(&serde_json::Value::from("Mad \"Queen\"")));
    assert_eq!(table.entry(3).unwrap().get("alive"), None);
}

#[test]
fn clean() {
    let mut table = TableMap::from_ssv(SAMPLE).unwrap();
    let table2 = TableMap::from_ssv(SAMPLE).unwrap();
    table.remove_entry(2).unwrap();
    assert_eq!(table.len(), 3);
    assert_eq!(
        table.to_ssv(),
        "firstname;lastname;profession;alive;cats;lost\n\
\"John\";\"Snow\";\"Knower of Nothing\";;;\n\
;;\"Night King\";false;;\n\
\"Daenyris\";;\"Mad \\\"Queen\\\"\";;;\n",
    );
    table.cleanup();
    assert_eq!(keys_of(&table), vec![s("firstname"), s("lastname"), s("profession"), s("alive")]);
    assert_eq!(
        table.to_ssv(),
        "firstname;lastname;profession;alive\n\
\"John\";\"Snow\";\"Knower of Nothing\";\n\
;;\"Night King\";false\n\
\"Daenyris\";;\"Mad \\\"Queen\\\"\";\n",
    );
    table.concatenate(table2);
    assert_eq!(table.len(), 7);
    assert_eq!(
        keys_of(&table),
        vec![s("firstname"), s("lastname"), s("profession"), s("alive"), s("cats"), s("lost")],
    );
    assert_eq!(
        table.to_ssv(),
        "firstname;lastname;profession;alive;cats;lost\n\
\"John\";\"Snow\";\"Knower of Nothing\";;;\n\
;;\"Night King\";false;;\n\
\"Daenyris\";;\"Mad \\\"Queen\\\"\";;;\n\
\"John\";\"Snow\";\"Knower of Nothing\";;;\n\
;;\"Night King\";false;;\n\
\"Michelle\";;;;1;true\n\
\"Daenyris\";;\"Mad \\\"Queen\\\"\";;;\n",
    );
}

#[test]
fn save() {
    let table = built();
    assert_eq!(table.len(), 4);
    assert_eq!(table.to_ssv(), SAMPLE);
}

#[test]
fn predicates() {
    let table = TableMap::from_ssv(SAMPLE).unwrap();
    let kept: Vec<usize> = table
        .entries()
        .into_iter()
        .filter(|entry| {
            if let Some(alive) = entry.get("alive") {
                if alive == "false" {
                    false
                } else {
                    true
                }
            } else {
                true
            }
        })
        .map(|entry| entry.index)
        .collect();
    assert_eq!(kept, vec![0, 2, 3]);
}

#[test]
fn formats_are_json() {
    assert_eq!("John".format(), "\"John\"");
    assert_eq!("Mad \"Queen\"".format(), "\"Mad \\\"Queen\\\"\"");
    assert_eq!("a\\b\nc".format(), "\"a\\\\b\\nc\"");
    assert_eq!(s("x").format(), "\"x\"");
    assert_eq!("".format(), "\"\"");
    assert_eq!(true.format(), "true");
    assert_eq!(false.format(), "false");
    assert_eq!(0i32.format(), "0");
    assert_eq!(1i32.format(), "1");
    assert_eq!((-5i32).format(), "-5");
    assert_eq!(i32::MIN.format(), "-2147483648");
    assert_eq!(1234567890123i64.format(), "1234567890123");
    assert_eq!(i64::MIN.format(), "-9223372036854775808");
    assert_eq!(u64::MAX.format(), "18446744073709551615");
    assert_eq!(10u64.format(), "10");
    assert_eq!(4000000000u32.format(), "4000000000");
}

#[test]
fn scenario_two_rows() {
    let mut table = SSVTable::new();
    assert!(table.is_empty());
    {
        let mut entry = table.new_entry().last_mut().unwrap();
        entry.inner.insert(s("firstname"), s("John"));
        entry.inner.insert(s("lastname"), s("Snow"));
        entry.inner.insert(s("profession"), s("Knower of Nothing"));
    }
    {
        let mut entry = table.new_entry().last_mut().unwrap();
        entry.inner.insert(s("profession"), s("Night King"));
        entry.inner.insert(s("alive"), s("false"));
    }
    assert_eq!(table.len(), 2);
    assert!(!table.is_empty());
    let keys: Vec<String> = table.keys().into_iter().cloned().collect();
    assert_eq!(keys, vec![s("firstname"), s("lastname"), s("profession"), s("alive")]);
    assert_eq!(table.entry(0).unwrap().inner.get("alive"), None);
    assert_eq!(table.entry(1).unwrap().inner.get("firstname"), None);
    assert_eq!(table.last().unwrap().inner.get("alive"), Some(&s("false")));

    let text = table.to_ssv();
    assert_eq!(text, "firstname;lastname;profession;alive\nJohn;Snow;Knower of Nothing;\n;;Night King;false\n");
    let back = SSVTable::from_ssv(&text).unwrap();
    assert_eq!(back.len(), 2);
    assert_eq!(back.entry(0).unwrap().inner.get("alive"), None);
    assert_eq!(back.entry(1).unwrap().inner.get("firstname"), None);
    assert_eq!(back.entry(1).unwrap().inner.get("lastname"), None);
    assert_eq!(back.entry(0).unwrap().inner.get("firstname"), Some(&s("John")));
}

#[test]
fn scenario_cleanup() {
    let mut table = SSVTable::new();
    table.new_entry().last_mut().unwrap().insert("a", 1);
    table.new_entry().last_mut().unwrap().insert("unused", 2);
    table.new_entry().last_mut().unwrap().insert("a", 3);
    table.remove_entry(1).unwrap();
    table.new_entry();
    assert_eq!(table.len(), 3);
    assert_eq!(table.keys().len(), 2);
    table.cleanup();
    let keys: Vec<String> = table.keys().into_iter().cloned().collect();
    assert_eq!(keys, vec![s("a")]);
    assert_eq!(table.len(), 2);
    assert_eq!(table.to_ssv(), "a\n1\n3\n");
}

#[test]
fn ssv_table_rows() {
    let mut table = built();
    assert_eq!(table.swap_remove_entry(0), Ok(()));
    assert_eq!(table.entry(0).unwrap().inner.get("firstname"), Some(&s("\"Daenyris\"")));
    assert_eq!(table.remove_entry(9), Err(TableError::IndexOutOfRange));
    assert!(matches!(table.entry(3), Err(TableError::IndexOutOfRange)));
    assert!(matches!(table.entry_mut(3), Err(TableError::IndexOutOfRange)));
    table.entry_mut(1).unwrap().insert("alive", true);
    assert_eq!(table.entry(1).unwrap().inner.get("alive"), Some(&s("true")));
    let copy = table.clone();
    let mut other = SSVTable::default();
    assert!(other.last().is_none());
    assert!(other.last_mut().is_none());
    other.concatenate(table);
    assert_eq!(other.to_ssv(), copy.to_ssv());
    assert_eq!(other.len(), 3);
}

#[test]
fn extract_json_keeps_shape() {
    let table = TableMap::from_ssv("a;b;c\n1;;\n;;\n;[1,2];\n").unwrap();
    let json = table.extract_json().unwrap();
    assert_eq!(json.len(), 3);
    let keys: Vec<String> = json.keys().into_iter().cloned().collect();
    assert_eq!(keys, vec![s("a"), s("b"), s("c")]);
    assert_eq!(json.entry(0).unwrap().get("a"), Some(&serde_json::Value::from(1)));
    assert_eq!(json.entry(0).unwrap().get("b"), None);
    assert!(json.entry(1).unwrap().iter().is_empty());
    assert_eq!(
        json.entry(2).unwrap().get("b"),
        Some(&serde_json::Value::from(vec![serde_json::Value::from(1), serde_json::Value::from(2)])),
    );
}

#[test]
fn extract_json_reports_first_bad_cell() {
    let table = TableMap::from_ssv("a;b\n1;2\ntrue;nope\n{;3\n").unwrap();
    match table.extract_json() {
        Ok(_) => panic!("a cell is not JSON"),
        Err(e) => {
            assert_eq!(e.row, 1);
            assert_eq!(e.key, "b");
            assert!(e.source.is_syntax());
        },
    }
}
