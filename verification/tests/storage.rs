//! Storage behavior: table isolation, set-returns-previous, delete, scans,
//! the option-result flip, and the sled-backed adapter.
use std::io;

use kvs::memory::MemTable;
use kvs::sleddb::SledDb;
use kvs::storage::{flip, get_full_key, ivec_to_key, Storage};
use kvs::types::Value;

#[test]
fn it_should_work() {
    let v: Option<Result<(), io::Error>> = Some(Err(io::ErrorKind::Other.into()));
    let v1 = flip(v);
    match v1 {
        Err(_) => println!("Err"),
        _ => println!("other"),
    }
}

#[test]
fn flip_keeps_successes() {
    let some_ok: Option<Result<u8, io::Error>> = Some(Ok(7));
    assert_eq!(flip(some_ok).unwrap(), Some(7));
    let none: Option<Result<u8, io::Error>> = None;
    assert_eq!(flip(none).unwrap(), None);
}

#[test]
fn table_isolation() {
    let mut store = MemTable::new();
    store.set("A", "k", Value::Integer(1)).unwrap();
    assert_eq!(store.get("B", "k").unwrap(), None);
    assert_eq!(store.get("A", "k").unwrap(), Some(Value::Integer(1)));
}

#[test]
fn table_isolation_with_tricky_names() {
    // Names holding the other side's text must not alias, and a table whose
    // name extends another's must not leak into its scans.
    let mut store = MemTable::new();
    store.set("a:b", "c", Value::Integer(1)).unwrap();
    assert_eq!(store.get("a", "b:c").unwrap(), None);

    store.set("a", "x", Value::Integer(2)).unwrap();
    store.set("ab", "x", Value::Integer(3)).unwrap();
    let pairs_a = store.get_all("a").unwrap();
    assert_eq!(pairs_a.len(), 1);
    assert_eq!(pairs_a[0].key, "x");
    assert_eq!(pairs_a[0].value, Value::Integer(2));
    let pairs_ab = store.get_all("ab").unwrap();
    assert_eq!(pairs_ab.len(), 1);
    assert_eq!(pairs_ab[0].value, Value::Integer(3));
    let pairs_colon = store.get_all("a:b").unwrap();
    assert_eq!(pairs_colon.len(), 1);
    assert_eq!(pairs_colon[0].key, "c");
}

#[test]
fn set_returns_previous_value() {
    let mut store = MemTable::new();
    assert_eq!(store.set("t", "k", Value::Integer(1)).unwrap(), None);
    assert_eq!(
        store.set("t", "k", Value::Integer(2)).unwrap(),
        Some(Value::Integer(1))
    );
    assert_eq!(store.get("t", "k").unwrap(), Some(Value::Integer(2)));
}

#[test]
fn delete_removes_and_returns() {
    let mut store = MemTable::new();
    store.set("t", "k", Value::Text("v".to_string())).unwrap();
    assert_eq!(
        store.del("t", "k").unwrap(),
        Some(Value::Text("v".to_string()))
    );
    assert_eq!(store.get("t", "k").unwrap(), None);
    assert_eq!(store.del("t", "k").unwrap(), None);
}

#[test]
fn contains_and_scan() {
    let mut store = MemTable::new();
    assert_eq!(store.contains("t", "k1").unwrap(), false);
    store.set("t", "k1", Value::Integer(1)).unwrap();
    store.set("t", "k2", Value::Integer(2)).unwrap();
    store.set("u", "k3", Value::Integer(3)).unwrap();
    assert_eq!(store.contains("t", "k1").unwrap(), true);
    let mut keys = store
        .get_all("t")
        .unwrap()
        .into_iter()
        .map(|p| p.key)
        .collect::<Vec<_>>();
    keys.sort();
    assert_eq!(keys, vec!["k1".to_string(), "k2".to_string()]);
    let again = store.get_iter("t").unwrap();
    assert_eq!(again.len(), 2);
}

#[test]
fn backend_key_is_recoverable() {
    let fk = get_full_key("table", "key");
    assert_eq!(ivec_to_key(&fk), Some("key".to_string()));
    assert_eq!(ivec_to_key(&vec![1, 2, 3]), None);
}

#[test]
fn sled_backend_set_get_del() {
    let mut db = SledDb::new("/tmp/kvs_sled_test_db").unwrap();
    db.del("t", "k").unwrap();
    assert_eq!(db.set("t", "k", Value::Integer(7)).unwrap(), None);
    assert_eq!(db.get("t", "k").unwrap(), Some(Value::Integer(7)));
    assert_eq!(db.contains("t", "k").unwrap(), true);
    assert_eq!(
        db.set("t", "k", Value::Text("x".to_string())).unwrap(),
        Some(Value::Integer(7))
    );
    assert_eq!(
        db.del("t", "k").unwrap(),
        Some(Value::Text("x".to_string()))
    );
    assert_eq!(db.get("t", "k").unwrap(), None);
    assert_eq!(db.contains("t", "k").unwrap(), false);
}

#[test]
fn sled_backend_scan() {
    let mut db = SledDb::new("/tmp/kvs_sled_scan_db").unwrap();
    db.set("scan", "k1", Value::Integer(1)).unwrap();
    db.set("scan", "k2", Value::Integer(2)).unwrap();
    db.set("other", "k3", Value::Integer(3)).unwrap();
    let mut keys = db
        .get_all("scan")
        .unwrap()
        .into_iter()
        .map(|p| p.key)
        .collect::<Vec<_>>();
    keys.sort();
    assert_eq!(keys, vec!["k1".to_string(), "k2".to_string()]);
}
