use kvs::memory::MemTable;
use kvs::pb::{kvpair_eq, value_eq, Kvpair, Value};
use kvs::storage::{flip, Storage};

#[test]
fn memtable_basic_interface_should_work() {
    let mut store = MemTable::new();
    let v = store.set("t1", "hello".to_string(), Value::of_str("world"));
    assert!(v.unwrap().is_none());
    let v1 = store.set("t1", "hello".to_string(), Value::of_str("world1"));
    match v1 {
        Ok(Some(prev)) => assert!(value_eq(&prev, &Value::of_str("world"))),
        _ => panic!("set on an existing key must return the previous value"),
    }
}

#[test]
fn memtable_iter_should_work() {
    let mut store = MemTable::new();
    store.set("t1", "k1".to_string(), Value::of_str("v1")).unwrap();
    store.set("t1", "k2".to_string(), Value::of_str("v2")).unwrap();

    let mut iter = store.get_iter("t1").unwrap();
    let mut table: Vec<Kvpair> = Vec::new();
    while let Some(p) = iter.next() {
        table.push(p);
    }

    assert_eq!(table.len(), 2);
    assert!(kvpair_eq(&table[0], &Kvpair::new("k1", Value::of_str("v1"))));
    assert!(kvpair_eq(&table[1], &Kvpair::new("k2", Value::of_str("v2"))));
}

#[test]
fn get_and_contains_on_never_written_key() {
    let mut store = MemTable::new();
    assert!(store.get("t1", "k1").unwrap().is_none());
    assert!(!store.contains("t1", "k1").unwrap());
    store.set("t1", "other".to_string(), Value::of_int(1)).unwrap();
    assert!(store.get("t1", "k1").unwrap().is_none());
    assert!(!store.contains("t1", "k1").unwrap());
}

#[test]
fn set_twice_returns_previous_and_get_returns_latest() {
    let mut store = MemTable::new();
    assert!(store.set("t", "k".to_string(), Value::of_int(1)).unwrap().is_none());
    let prev = store.set("t", "k".to_string(), Value::of_int(2)).unwrap().unwrap();
    assert!(value_eq(&prev, &Value::of_int(1)));
    let got = store.get("t", "k").unwrap().unwrap();
    assert!(value_eq(&got, &Value::of_int(2)));
}

#[test]
fn del_unset_key_is_none_and_del_after_set_removes() {
    let mut store = MemTable::new();
    assert!(store.del("t", "k").unwrap().is_none());
    store.set("t", "k".to_string(), Value::of_str("x")).unwrap();
    let removed = store.del("t", "k").unwrap().unwrap();
    assert!(value_eq(&removed, &Value::of_str("x")));
    assert!(store.get("t", "k").unwrap().is_none());
    assert!(!store.contains("t", "k").unwrap());
}

#[test]
fn get_all_is_sorted_with_last_write_per_key() {
    let mut store = MemTable::new();
    store.set("t", "b".to_string(), Value::of_int(2)).unwrap();
    store.set("t", "a".to_string(), Value::of_int(1)).unwrap();
    store.set("t", "c".to_string(), Value::of_int(3)).unwrap();
    store.set("t", "b".to_string(), Value::of_int(20)).unwrap();
    let pairs = store.get_all("t").unwrap();
    assert_eq!(pairs.len(), 3);
    assert!(kvpair_eq(&pairs[0], &Kvpair::new("a", Value::of_int(1))));
    assert!(kvpair_eq(&pairs[1], &Kvpair::new("b", Value::of_int(20))));
    assert!(kvpair_eq(&pairs[2], &Kvpair::new("c", Value::of_int(3))));
}

#[test]
fn get_all_of_missing_table_is_empty() {
    let store = MemTable::new();
    assert_eq!(store.get_all("nope").unwrap().len(), 0);
}

#[test]
fn tables_are_independent_namespaces() {
    let mut store = MemTable::new();
    store.set("t1", "k".to_string(), Value::of_int(1)).unwrap();
    store.set("t2", "k".to_string(), Value::of_int(2)).unwrap();
    assert!(value_eq(
        &store.get("t1", "k").unwrap().unwrap(),
        &Value::of_int(1)
    ));
    assert!(value_eq(
        &store.get("t2", "k").unwrap().unwrap(),
        &Value::of_int(2)
    ));
}

#[test]
fn flip_turns_optional_results_inside_out() {
    assert_eq!(flip::<i32, &str>(None), Ok(None));
    assert_eq!(flip::<i32, &str>(Some(Ok(3))), Ok(Some(3)));
    assert_eq!(flip::<i32, &str>(Some(Err("boom"))), Err("boom"));
}
