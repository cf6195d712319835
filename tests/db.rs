use aymr::aymr_db::db::AymrDb;
use aymr::aymr_db::traits::AymrDatabase;

fn create_test_db() -> AymrDb {
    AymrDb::open()
}

#[test]
fn test_clear() {
    let mut db = create_test_db();
    assert!(db.clear().is_ok());
}

#[test]
fn test_len() {
    let db = create_test_db();
    assert_eq!(db.len(), 0);
}

#[test]
fn test_is_empty() {
    let db = create_test_db();
    assert!(db.is_empty().unwrap());
}

#[test]
fn test_get() {
    let db = create_test_db();
    assert!(db.get(&vec![1, 2, 3]).unwrap().is_none());
}

#[test]
fn test_insert_and_get() {
    let mut db = create_test_db();
    let key = vec![1, 2, 3];
    let value = vec![4, 5, 6];
    assert!(db.insert(key.clone(), value).is_ok());
    assert!(db.get(&key).unwrap().is_some());
}

#[test]
fn test_remove() {
    let mut db = create_test_db();
    let key = vec![1, 2, 3];
    let value = vec![4, 5, 6];
    db.insert(key.clone(), value).unwrap();
    assert_eq!(db.len(), 1);
    assert!(db.remove(key).unwrap().is_some());
    assert_eq!(db.len(), 0);
}

#[test]
fn test_contains_key() {
    let mut db = create_test_db();
    let key = vec![1, 2, 3];
    let value = vec![4, 5, 6];
    db.insert(key.clone(), value).unwrap();
    assert!(db.contains_key(&key).unwrap());
}

#[test]
fn test_clear_after_insert() {
    let mut db = create_test_db();

    let _ = db.insert("key".into(), "value".into());
    assert_eq!(db.len(), 1);

    assert!(db.clear().is_ok());
    assert_eq!(db.len(), 0);
    assert!(db.is_empty().unwrap());
}
