//! Command service behavior: the dispatch table over an in-memory store.
use kvs::memory::MemTable;
use kvs::service::execute;
use kvs::types::{CommandRequest, Status, Value};

#[test]
fn set_get_delete_scenario() {
    let mut store = MemTable::new();

    let r = execute(
        &mut store,
        CommandRequest::new_set("t1".to_string(), "k1".to_string(), Value::Integer(42)),
    );
    assert_eq!(r.status, Status::Success);
    assert_eq!(r.values.len(), 0);

    let r = execute(
        &mut store,
        CommandRequest::new_get("t1".to_string(), "k1".to_string()),
    );
    assert_eq!(r.status, Status::Success);
    assert_eq!(r.values, vec![Value::Integer(42)]);

    let r = execute(
        &mut store,
        CommandRequest::new_delete("t1".to_string(), "k1".to_string()),
    );
    assert_eq!(r.status, Status::Success);
    assert_eq!(r.values, vec![Value::Integer(42)]);

    let r = execute(
        &mut store,
        CommandRequest::new_get("t1".to_string(), "k1".to_string()),
    );
    assert_eq!(r.status, Status::NotFound);
    assert_eq!(r.values.len(), 0);
}

#[test]
fn contains_reports_boolean_in_message() {
    let mut store = MemTable::new();
    let r = execute(
        &mut store,
        CommandRequest::new_contains("t".to_string(), "k".to_string()),
    );
    assert_eq!(r.status, Status::Success);
    assert_eq!(r.message, "false");

    execute(
        &mut store,
        CommandRequest::new_set("t".to_string(), "k".to_string(), Value::Integer(1)),
    );
    let r = execute(
        &mut store,
        CommandRequest::new_contains("t".to_string(), "k".to_string()),
    );
    assert_eq!(r.message, "true");
}

#[test]
fn get_all_lists_the_table() {
    let mut store = MemTable::new();
    execute(
        &mut store,
        CommandRequest::new_set("t".to_string(), "a".to_string(), Value::Integer(1)),
    );
    execute(
        &mut store,
        CommandRequest::new_set("t".to_string(), "b".to_string(), Value::Integer(2)),
    );
    execute(
        &mut store,
        CommandRequest::new_set("u".to_string(), "c".to_string(), Value::Integer(3)),
    );
    let r = execute(&mut store, CommandRequest::new_get_all("t".to_string()));
    assert_eq!(r.status, Status::Success);
    let mut keys = r.pairs.iter().map(|p| p.key.clone()).collect::<Vec<_>>();
    keys.sort();
    assert_eq!(keys, vec!["a".to_string(), "b".to_string()]);

    let r = execute(&mut store, CommandRequest::new_get_all("empty".to_string()));
    assert_eq!(r.status, Status::Success);
    assert_eq!(r.pairs.len(), 0);
}

#[test]
fn set_returns_previous_through_service() {
    let mut store = MemTable::new();
    let r = execute(
        &mut store,
        CommandRequest::new_set("t".to_string(), "k".to_string(), Value::Text("one".to_string())),
    );
    assert_eq!(r.values.len(), 0);
    let r = execute(
        &mut store,
        CommandRequest::new_set("t".to_string(), "k".to_string(), Value::Text("two".to_string())),
    );
    assert_eq!(r.values, vec![Value::Text("one".to_string())]);
}
