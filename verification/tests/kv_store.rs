use raftkv::command::{outcome_from, ApplyOutcome, Command};
use raftkv::kv::{handle_kv_error, Error, Store};

#[test]
fn new_store_is_empty() {
    let store = Store::new();
    assert_eq!(store.get("a"), Err(Error::DoesNotExist));
}

#[test]
fn insert_then_get() {
    let mut store = Store::new();
    assert_eq!(store.insert("a".to_string(), "1".to_string()), Ok(()));
    assert_eq!(store.get("a"), Ok("1"));
    assert_eq!(store.get("b"), Err(Error::DoesNotExist));
}

#[test]
fn insert_refuses_present_key() {
    let mut store = Store::new();
    store.insert("a".to_string(), "1".to_string()).unwrap();
    assert_eq!(store.insert("a".to_string(), "2".to_string()), Err(Error::Exists));
    assert_eq!(store.get("a"), Ok("1"));
}

#[test]
fn update_overwrites_present_key() {
    let mut store = Store::new();
    store.insert("a".to_string(), "1".to_string()).unwrap();
    assert_eq!(store.update("a", "2".to_string()), Ok(()));
    assert_eq!(store.get("a"), Ok("2"));
}

#[test]
fn update_refuses_absent_key() {
    let mut store = Store::new();
    assert_eq!(store.update("a", "2".to_string()), Err(Error::DoesNotExist));
    assert_eq!(store.get("a"), Err(Error::DoesNotExist));
}

#[test]
fn remove_deletes_present_key() {
    let mut store = Store::new();
    store.insert("a".to_string(), "1".to_string()).unwrap();
    store.insert("b".to_string(), "2".to_string()).unwrap();
    assert_eq!(store.remove("a"), Ok(()));
    assert_eq!(store.get("a"), Err(Error::DoesNotExist));
    assert_eq!(store.get("b"), Ok("2"));
}

#[test]
fn remove_refuses_absent_key() {
    let mut store = Store::new();
    assert_eq!(store.remove("a"), Err(Error::DoesNotExist));
}

#[test]
fn apply_reports_the_answer_of_the_store() {
    let mut store = Store::new();
    let insert = Command::Insert { key: "k".to_string(), value: "v".to_string() };
    assert_eq!(store.apply(&insert), ApplyOutcome::Success);
    assert_eq!(store.apply(&insert), ApplyOutcome::AlreadyExists);
    let update = Command::Update { key: "k".to_string(), value: "w".to_string() };
    assert_eq!(store.apply(&update), ApplyOutcome::Success);
    assert_eq!(store.get("k"), Ok("w"));
    let remove = Command::Remove { key: "k".to_string() };
    assert_eq!(store.apply(&remove), ApplyOutcome::Success);
    assert_eq!(store.apply(&remove), ApplyOutcome::NotFound);
    assert_eq!(store.apply(&update), ApplyOutcome::NotFound);
    assert_eq!(store.get("k"), Err(Error::DoesNotExist));
}

#[test]
fn outcome_follows_the_result() {
    assert_eq!(outcome_from(Ok(())), ApplyOutcome::Success);
    assert_eq!(outcome_from(Err(Error::Exists)), ApplyOutcome::AlreadyExists);
    assert_eq!(outcome_from(Err(Error::DoesNotExist)), ApplyOutcome::NotFound);
}

#[test]
fn errors_map_to_http_status() {
    assert_eq!(handle_kv_error(Error::Exists), (409, "key exists".to_string()));
    assert_eq!(handle_kv_error(Error::DoesNotExist), (404, "key does not exist".to_string()));
}

#[test]
fn cloned_command_equals_its_source() {
    let insert = Command::Insert { key: "k".to_string(), value: "v".to_string() };
    assert_eq!(insert.clone(), insert);
    let remove = Command::Remove { key: "k".to_string() };
    assert_eq!(remove.clone(), remove);
    assert_ne!(insert, Command::Update { key: "k".to_string(), value: "v".to_string() });
}
