use aymr::aymr_db::batch::{Batch, WriteBatch};
use aymr::aymr_db::db::{AymrDb, EngineKind};
use aymr::aymr_db::error::Error;
use aymr::aymr_db::traits::{AymrDatabase, AymrFlush, AymrOpenable};
use aymr::bytes::{compare_keys, KeyOrder};
use aymr::btreemap::db::AymrBtreeMap;
use aymr::hashing::{hash_key, slot_of};
use aymr::hashmap::db::AymrHashMap;

const KINDS: [EngineKind; 2] = [EngineKind::Ordered, EngineKind::Unordered];

#[test]
fn open_binds_the_chosen_engine() {
    assert_eq!(AymrDb::open().engine_kind(), EngineKind::Ordered);
    for kind in KINDS {
        let db = AymrDb::open_with(kind);
        assert_eq!(db.engine_kind(), kind);
        assert_eq!(db.len(), 0);
    }
}

#[test]
fn insert_then_get_round_trips() {
    for kind in KINDS {
        let mut db = AymrDb::open_with(kind);
        assert_eq!(db.insert(vec![7, 7], vec![1, 2, 3]), Ok(None));
        assert_eq!(db.get(&vec![7, 7]), Ok(Some(vec![1, 2, 3])));
        assert_eq!(db.get(&vec![7]), Ok(None));
    }
}

#[test]
fn overwrite_returns_previous_value() {
    for kind in KINDS {
        let mut db = AymrDb::open_with(kind);
        assert_eq!(db.insert(vec![1], vec![10]), Ok(None));
        assert_eq!(db.insert(vec![1], vec![20]), Ok(Some(vec![10])));
        assert_eq!(db.get(&vec![1]), Ok(Some(vec![20])));
        assert_eq!(db.len(), 1);
    }
}

#[test]
fn remove_absent_key_changes_nothing() {
    for kind in KINDS {
        let mut db = AymrDb::open_with(kind);
        db.insert(vec![1], vec![1]).unwrap();
        db.insert(vec![2], vec![2]).unwrap();
        assert_eq!(db.remove(vec![3]), Ok(None));
        assert_eq!(db.len(), 2);
    }
}

#[test]
fn remove_present_key_returns_value() {
    for kind in KINDS {
        let mut db = AymrDb::open_with(kind);
        db.insert(vec![1], vec![11]).unwrap();
        db.insert(vec![2], vec![22]).unwrap();
        db.insert(vec![3], vec![33]).unwrap();
        assert_eq!(db.remove(vec![2]), Ok(Some(vec![22])));
        assert_eq!(db.get(&vec![2]), Ok(None));
        assert_eq!(db.len(), 2);
        assert_eq!(db.get(&vec![1]), Ok(Some(vec![11])));
        assert_eq!(db.get(&vec![3]), Ok(Some(vec![33])));
    }
}

#[test]
fn clear_empties_any_store() {
    for kind in KINDS {
        let mut db = AymrDb::open_with(kind);
        for i in 0..20u8 {
            db.insert(vec![i, i], vec![i]).unwrap();
        }
        assert_eq!(db.len(), 20);
        assert_eq!(db.clear(), Ok(()));
        assert_eq!(db.len(), 0);
        assert_eq!(db.is_empty(), Ok(true));
        assert_eq!(db.get(&vec![3, 3]), Ok(None));
    }
}

#[test]
fn contains_key_agrees_with_get() {
    for kind in KINDS {
        let mut db = AymrDb::open_with(kind);
        db.insert(vec![5, 0], vec![]).unwrap();
        for key in [vec![5, 0], vec![5], vec![5, 0, 0], vec![], vec![4, 255]] {
            assert_eq!(
                db.contains_key(&key).unwrap(),
                db.get(&key).unwrap().is_some()
            );
        }
        assert_eq!(db.contains_key(&vec![5, 0]), Ok(true));
        assert_eq!(db.contains_key(&vec![5]), Ok(false));
    }
}

#[test]
fn batch_applies_in_staged_order() {
    for kind in KINDS {
        let mut db = AymrDb::open_with(kind);
        let mut batch = WriteBatch::new();
        batch.insert(vec![1], vec![10]);
        batch.remove(vec![1]);
        batch.insert(vec![2], vec![20]);
        assert_eq!(batch.len(), 3);
        assert_eq!(db.apply_batch(batch), Ok(()));
        assert_eq!(db.len(), 1);
        assert_eq!(db.get(&vec![1]), Ok(None));
        assert_eq!(db.get(&vec![2]), Ok(Some(vec![20])));
    }
}

#[test]
fn batch_clear_runs_before_later_inserts() {
    for kind in KINDS {
        let mut db = AymrDb::open_with(kind);
        db.insert(vec![9], vec![9]).unwrap();
        let mut batch = WriteBatch::new();
        batch.insert(vec![1], vec![1]);
        batch.clear();
        batch.insert(vec![2], vec![2]);
        batch.insert(vec![2], vec![3]);
        assert_eq!(db.apply_batch(batch), Ok(()));
        assert_eq!(db.len(), 1);
        assert_eq!(db.get(&vec![9]), Ok(None));
        assert_eq!(db.get(&vec![1]), Ok(None));
        assert_eq!(db.get(&vec![2]), Ok(Some(vec![3])));
    }
}

#[test]
fn empty_batch_changes_nothing() {
    for kind in KINDS {
        let mut db = AymrDb::open_with(kind);
        db.insert(vec![1], vec![2]).unwrap();
        assert_eq!(db.apply_batch(WriteBatch::new()), Ok(()));
        assert_eq!(db.len(), 1);
        assert_eq!(db.get(&vec![1]), Ok(Some(vec![2])));
    }
}

#[test]
fn byte_scenario_insert_get_remove() {
    for kind in KINDS {
        let mut db = AymrDb::open_with(kind);
        assert_eq!(db.insert(vec![1, 2, 3], vec![4, 5, 6]), Ok(None));
        assert_eq!(db.get(&vec![1, 2, 3]), Ok(Some(vec![4, 5, 6])));
        assert_eq!(db.remove(vec![1, 2, 3]), Ok(Some(vec![4, 5, 6])));
        assert_eq!(db.get(&vec![1, 2, 3]), Ok(None));
        assert_eq!(db.len(), 0);
    }
}

#[test]
fn string_scenario_insert_then_clear() {
    for kind in KINDS {
        let mut db = AymrDb::open_with(kind);
        assert_eq!(db.insert("key".into(), "value".into()), Ok(None));
        assert_eq!(db.len(), 1);
        assert_eq!(db.get(&b"key".to_vec()), Ok(Some(b"value".to_vec())));
        assert_eq!(db.clear(), Ok(()));
        assert_eq!(db.len(), 0);
        assert_eq!(db.is_empty(), Ok(true));
    }
}

#[test]
fn returned_buffer_is_a_copy() {
    for kind in KINDS {
        let mut db = AymrDb::open_with(kind);
        db.insert(vec![1], vec![1, 1]).unwrap();
        let mut read = db.get(&vec![1]).unwrap().unwrap();
        read[0] = 99;
        assert_eq!(db.get(&vec![1]), Ok(Some(vec![1, 1])));
        db.insert(vec![1], vec![2]).unwrap();
        assert_eq!(read, vec![99, 1]);
    }
}

#[test]
fn empty_key_and_prefix_keys_are_distinct() {
    for kind in KINDS {
        let mut db = AymrDb::open_with(kind);
        let keys = [vec![], vec![0], vec![0, 0], vec![1], vec![0, 1], vec![255]];
        for (i, k) in keys.iter().enumerate() {
            assert_eq!(db.insert(k.clone(), vec![i as u8]), Ok(None));
        }
        assert_eq!(db.len(), keys.len());
        for (i, k) in keys.iter().enumerate() {
            assert_eq!(db.get(k), Ok(Some(vec![i as u8])));
        }
        assert_eq!(db.remove(vec![0]), Ok(Some(vec![1])));
        assert_eq!(db.get(&vec![0, 0]), Ok(Some(vec![2])));
        assert_eq!(db.get(&vec![]), Ok(Some(vec![0])));
        assert_eq!(db.len(), keys.len() - 1);
    }
}

#[test]
fn many_keys_in_any_order() {
    for kind in KINDS {
        let mut db = AymrDb::open_with(kind);
        for i in 0..200u32 {
            let k = ((i * 37) % 200) as u16;
            db.insert(k.to_be_bytes().to_vec(), vec![(k % 251) as u8]).unwrap();
        }
        assert_eq!(db.len(), 200);
        for k in 0..200u16 {
            assert_eq!(db.get(&k.to_be_bytes().to_vec()), Ok(Some(vec![(k % 251) as u8])));
        }
        for k in (0..200u16).step_by(2) {
            assert_eq!(db.remove(k.to_be_bytes().to_vec()), Ok(Some(vec![(k % 251) as u8])));
        }
        assert_eq!(db.len(), 100);
        assert_eq!(db.contains_key(&4u16.to_be_bytes().to_vec()), Ok(false));
        assert_eq!(db.contains_key(&5u16.to_be_bytes().to_vec()), Ok(true));
    }
}

#[test]
fn flush_succeeds_in_memory() {
    for kind in KINDS {
        let mut db = AymrDb::open_with(kind);
        db.insert(vec![1], vec![1]).unwrap();
        assert_eq!(db.flush(), Ok(()));
        assert_eq!(db.len(), 1);
    }
}

#[test]
fn engines_work_on_their_own() {
    let mut ordered = AymrBtreeMap::open();
    let mut unordered = AymrHashMap::open();
    assert_eq!(ordered.insert(vec![3], vec![30]), Ok(None));
    assert_eq!(unordered.insert(vec![3], vec![30]), Ok(None));
    assert_eq!(ordered.insert(vec![1], vec![10]), Ok(None));
    assert_eq!(unordered.insert(vec![1], vec![10]), Ok(None));
    assert_eq!(ordered.get(&vec![1]), Ok(Some(vec![10])));
    assert_eq!(unordered.get(&vec![3]), Ok(Some(vec![30])));
    assert_eq!(ordered.remove(vec![3]), Ok(Some(vec![30])));
    assert_eq!(unordered.remove(vec![1]), Ok(Some(vec![10])));
    assert_eq!(ordered.len(), 1);
    assert_eq!(unordered.len(), 1);
    assert_eq!(ordered.flush(), Ok(()));
    assert_eq!(unordered.flush(), Ok(()));
}

#[test]
fn keys_compare_lexicographically() {
    assert_eq!(compare_keys(&[1, 2], &[1, 2]), KeyOrder::Equal);
    assert_eq!(compare_keys(&[1, 2], &[1, 3]), KeyOrder::Less);
    assert_eq!(compare_keys(&[2], &[1, 255]), KeyOrder::Greater);
    assert_eq!(compare_keys(&[1], &[1, 0]), KeyOrder::Less);
    assert_eq!(compare_keys(&[], &[]), KeyOrder::Equal);
    assert_eq!(compare_keys(&[0], &[]), KeyOrder::Greater);
}

#[test]
fn error_kinds_are_distinct() {
    assert_ne!(Error::Unsupported, Error::Backend);
}

#[test]
fn key_hash_is_fnv1a() {
    assert_eq!(hash_key(&[]), 0xcbf29ce484222325);
    assert_eq!(hash_key(b"a"), 0xaf63dc4c8601ec8c);
    assert_eq!(hash_key(b"foobar"), 0x85944171f73967e8);
    assert_eq!(slot_of(b"a", 8), (0xaf63dc4c8601ec8cu64 % 8) as usize);
}
