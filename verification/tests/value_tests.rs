use tomli_rust::{Datetime, Date, Table, Value};

#[test]
fn table_insert_get_and_replace() {
    let mut t = Table::new();
    assert!(t.is_empty());
    assert_eq!(t.insert("port".to_string(), Value::Integer(80)), None);
    assert_eq!(t.insert("host".to_string(), Value::String("a".to_string())), None);
    assert_eq!(t.len(), 2);
    assert_eq!(t.get("port"), Some(&Value::Integer(80)));
    assert_eq!(t.get("missing"), None);
    assert!(t.contains_key("host"));
    assert!(!t.contains_key("hos"));
    assert_eq!(t.insert("port".to_string(), Value::Integer(8080)), Some(Value::Integer(80)));
    assert_eq!(t.get("port"), Some(&Value::Integer(8080)));
    assert_eq!(t.len(), 2);
    assert!(!t.is_empty());
}

#[test]
fn table_entries_are_in_key_order_whatever_the_insertion_order() {
    let keys = ["b", "a", "ab", "B", "é", "aa", ""];
    let mut t1 = Table::new();
    for (i, k) in keys.iter().enumerate() {
        t1.insert(k.to_string(), Value::Integer(i as i64));
    }
    let mut t2 = Table::new();
    for (i, k) in keys.iter().enumerate().rev() {
        t2.insert(k.to_string(), Value::Integer(i as i64));
    }
    let order: Vec<&str> = t1.entries().iter().map(|(k, _)| k.as_str()).collect();
    assert_eq!(order, vec!["", "B", "a", "aa", "ab", "b", "é"]);
    assert_eq!(t1, t2);
}

#[test]
fn value_kind_names() {
    assert_eq!(Value::String(String::new()).kind_name(), "string");
    assert_eq!(Value::Integer(1).kind_name(), "integer");
    assert_eq!(Value::Float(1.5f64.to_bits()).kind_name(), "float");
    assert_eq!(Value::Boolean(true).kind_name(), "boolean");
    let d = Datetime::LocalDate(Date { year: 1979, month: 5, day: 27 });
    assert_eq!(Value::Datetime(d).kind_name(), "datetime");
    assert_eq!(Value::Array(vec![]).kind_name(), "array");
    assert_eq!(Value::Table(Table::new()).kind_name(), "table");
}

#[test]
fn value_mutable_views() {
    let mut v = Value::Table(Table::new());
    v.as_table_mut().unwrap().insert("k".to_string(), Value::Boolean(false));
    assert!(v.as_array_mut().is_none());
    match &v {
        Value::Table(t) => assert_eq!(t.get("k"), Some(&Value::Boolean(false))),
        _ => panic!("expected a table"),
    }
    let mut a = Value::Array(vec![Value::Integer(1)]);
    a.as_array_mut().unwrap().push(Value::Integer(2));
    assert!(a.as_table_mut().is_none());
    assert_eq!(a, Value::Array(vec![Value::Integer(1), Value::Integer(2)]));
}
