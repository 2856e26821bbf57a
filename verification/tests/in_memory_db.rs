use lsm_engine::in_memory_db::InMemoryDb;
use lsm_engine::kvdb::KeyStatus;

#[test]
fn empty_map_has_no_key() {
    let db: InMemoryDb<u64> = InMemoryDb::new();
    assert_eq!(db.get("a"), None);
    assert_eq!(db.len(), 0);
    assert_eq!(db.keys(), Vec::<String>::new());
}

#[test]
fn map_gives_what_was_set() {
    let mut db: InMemoryDb<u64> = InMemoryDb::new();
    db.set("b", 2);
    db.set("a", 1);
    db.set("c", 3);
    assert_eq!(db.get("a"), Some(&1));
    assert_eq!(db.get("b"), Some(&2));
    assert_eq!(db.get("c"), Some(&3));
    assert_eq!(db.get("d"), None);
    assert_eq!(db.get(""), None);
    assert_eq!(db.len(), 3);
}

#[test]
fn map_keeps_the_last_payload_of_a_key() {
    let mut db: InMemoryDb<KeyStatus<u64>> = InMemoryDb::new();
    db.set("k", KeyStatus::Present(5));
    db.set("k", KeyStatus::Present(9));
    assert_eq!(db.get("k"), Some(&KeyStatus::Present(9)));
    db.set("k", KeyStatus::Deleted);
    assert_eq!(db.get("k"), Some(&KeyStatus::Deleted));
    assert_eq!(db.len(), 1);
}

#[test]
fn map_forgets_a_deleted_key() {
    let mut db: InMemoryDb<u64> = InMemoryDb::new();
    db.set("a", 1);
    db.set("b", 2);
    db.delete("a");
    assert_eq!(db.get("a"), None);
    assert_eq!(db.get("b"), Some(&2));
    db.delete("missing");
    assert_eq!(db.len(), 1);
    db.delete("b");
    assert_eq!(db.len(), 0);
}

#[test]
fn map_lists_its_keys_in_ascending_order() {
    let mut db: InMemoryDb<u64> = InMemoryDb::new();
    for key in ["m", "b", "z", "a", "ab", "", "m"] {
        db.set(key, 0);
    }
    assert_eq!(
        db.keys(),
        vec!["".to_string(), "a".to_string(), "ab".to_string(), "b".to_string(), "m".to_string(), "z".to_string()]
    );
}
