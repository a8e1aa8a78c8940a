use kvs::pb::{kvpair_eq, value_eq, Kvpair, Value};
use kvs::sleddb::SledDb;
use kvs::storage::Storage;

#[test]
fn sleddb_basic_interface_should_work() {
    let mut store = SledDb::new("/tmp/kvs_test_basic").unwrap();
    store.del("t1", "hello").unwrap();
    let v = store.set("t1", "hello".to_string(), Value::of_str("world"));
    assert!(v.unwrap().is_none());
    let v1 = store.set("t1", "hello".to_string(), Value::of_str("world1"));
    match v1 {
        Ok(Some(prev)) => assert!(value_eq(&prev, &Value::of_str("world"))),
        _ => panic!("set on an existing key must return the previous value"),
    }
    let got = store.get("t1", "hello").unwrap().unwrap();
    assert!(value_eq(&got, &Value::of_str("world1")));
    assert!(store.contains("t1", "hello").unwrap());
}

#[test]
fn sleddb_del_and_get_all_should_work() {
    let mut store = SledDb::new("/tmp/kvs_test_scan").unwrap();
    for key in ["b", "a", "c"] {
        store.del("t", key).unwrap();
    }
    store.set("t", "b".to_string(), Value::of_int(2)).unwrap();
    store.set("t", "a".to_string(), Value::of_int(1)).unwrap();
    store.set("t", "c".to_string(), Value::of_int(3)).unwrap();
    let removed = store.del("t", "c").unwrap().unwrap();
    assert!(value_eq(&removed, &Value::of_int(3)));
    assert!(store.del("t", "never").unwrap().is_none());

    let pairs = store.get_all("t").unwrap();
    assert_eq!(pairs.len(), 2);
    assert!(kvpair_eq(&pairs[0], &Kvpair::new("a", Value::of_int(1))));
    assert!(kvpair_eq(&pairs[1], &Kvpair::new("b", Value::of_int(2))));
}

#[test]
fn sleddb_iter_should_work() {
    let mut store = SledDb::new("/tmp/kvs_test_iter").unwrap();
    for key in ["k1", "k2"] {
        store.del("t1", key).unwrap();
    }
    store.set("t1", "k1".to_string(), Value::of_str("v1")).unwrap();
    store.set("t1", "k2".to_string(), Value::of_str("v2")).unwrap();

    let mut iter = store.get_iter("t1").unwrap();
    let mut table: Vec<Kvpair> = Vec::new();
    while let Some(p) = iter.next() {
        table.push(p);
    }
    assert_eq!(table.len(), 2);
    assert!(kvpair_eq(&table[0], &Kvpair::new("k1", Value::of_str("v1"))));
    assert!(kvpair_eq(&table[1], &Kvpair::new("k2", Value::of_str("v2"))));
}

#[test]
fn sleddb_table_names_do_not_collide() {
    // table "ab" key "c" and table "a" key "bc" must stay apart
    let mut store = SledDb::new("/tmp/kvs_test_prefix").unwrap();
    store.del("ab", "c").unwrap();
    store.del("a", "bc").unwrap();
    store.set("ab", "c".to_string(), Value::of_int(1)).unwrap();
    store.set("a", "bc".to_string(), Value::of_int(2)).unwrap();
    let v1 = store.get("ab", "c").unwrap().unwrap();
    let v2 = store.get("a", "bc").unwrap().unwrap();
    assert!(value_eq(&v1, &Value::of_int(1)));
    assert!(value_eq(&v2, &Value::of_int(2)));
    assert_eq!(store.get_all("ab").unwrap().len(), 1);
}

#[test]
fn sleddb_rejects_separator_in_table_name() {
    let mut store = SledDb::new("/tmp/kvs_test_sep").unwrap();
    let r = store.set("a:b", "k".to_string(), Value::of_int(1));
    assert!(matches!(r, Err(kvs::error::KvError::Internal(_))));
    assert!(store.get("a:b", "k").unwrap().is_none());
    assert!(store.get_all("a:b").unwrap().is_empty());
}

#[test]
fn sleddb_survives_reopen() {
    {
        let mut store = SledDb::new("/tmp/kvs_test_reopen").unwrap();
        store.set("t", "k".to_string(), Value::of_str("durable")).unwrap();
    }
    let store = SledDb::new("/tmp/kvs_test_reopen").unwrap();
    let got = store.get("t", "k").unwrap().unwrap();
    assert!(value_eq(&got, &Value::of_str("durable")));
}
