use rustdb::btree::tree::BTree;
use rustdb::db::RustDB;
use rustdb::storage::buffer_pool::BufferPool;
use rustdb::storage::page::Page;
use rustdb::tx::transaction::{Operation, TransactionManager};
use rustdb::wal::log::{decode_log, encode_put, WALEntry};
use std::sync::Arc;

fn tree() -> BTree {
    let mut pool = BufferPool::new(10);
    let _ = pool.begin_fetch(0);
    pool.complete_fetch(Page::new(0));
    BTree::new(pool)
}

fn database() -> RustDB {
    RustDB::new(tree(), tree())
}

#[test]
fn test_put_get() {
    let mut db = database();
    db.put(b"a".to_vec(), b"1".to_vec());
    assert_eq!(db.get(b"a"), Some(b"1".to_vec()));
}

#[test]
fn test_delete() {
    let mut db = database();
    db.put(b"key1".to_vec(), b"value1".to_vec());
    db.delete(b"key1");
    assert_eq!(db.get(b"key1"), None);
}

#[test]
fn secondary_index_points_to_primary() {
    let mut db = database();
    db.put_with_secondary(b"person:2".to_vec(), b"Bob".to_vec(), b"Bob".to_vec());
    assert_eq!(db.get_by_secondary(b"Bob"), Some(b"Bob".to_vec()));
    assert_eq!(db.get(b"person:2"), Some(b"Bob".to_vec()));
    db.delete_with_secondary(b"person:2", b"Bob");
    assert_eq!(db.get_by_secondary(b"Bob"), None);
    assert_eq!(db.get(b"person:2"), None);
}

#[test]
fn scan_returns_matching_entries() {
    let mut db = database();
    db.put(b"person:1".to_vec(), b"Alice".to_vec());
    db.put(b"other".to_vec(), b"x".to_vec());
    assert_eq!(db.scan(b"person:"), vec![(b"person:1".to_vec(), b"Alice".to_vec())]);
}

#[test]
fn can_put_refuses_too_large_values() {
    let db = database();
    assert!(db.can_put(b"k", b"v"));
    assert!(!db.can_put(b"k", &vec![0u8; 5000]));
    assert!(!db.can_put_with_secondary(b"k", b"v", &vec![0u8; 5000]));
}

#[test]
fn replaying_a_logged_put_twice_changes_nothing() {
    let mut db = database();
    let log = encode_put(b"k", b"v");
    for _ in 0..2 {
        let (entries, error) = decode_log(&log);
        assert!(error.is_none());
        for entry in entries {
            assert!(db.can_apply(&entry));
            db.apply(entry);
        }
    }
    assert_eq!(db.get(b"k"), Some(b"v".to_vec()));
    assert_eq!(db.scan(b"").len(), 1);
}

#[test]
fn apply_dispatches_to_both_trees() {
    let mut db = database();
    db.apply(WALEntry::Put(b"p".to_vec(), b"v".to_vec()));
    db.apply(WALEntry::IndexPut(b"s".to_vec(), b"p".to_vec()));
    assert_eq!(db.get_by_secondary(b"s"), Some(b"v".to_vec()));
    db.apply(WALEntry::IndexDelete(b"s".to_vec()));
    assert_eq!(db.get_by_secondary(b"s"), None);
    db.apply(WALEntry::Delete(b"p".to_vec()));
    assert_eq!(db.get(b"p"), None);
}

#[test]
fn transaction_reads_its_own_writes() {
    let mut db = database();
    db.put(b"k".to_vec(), b"committed".to_vec());
    let mut tx = db.begin_transaction();
    assert_eq!(tx.get(&mut db, b"k"), Some(b"committed".to_vec()));
    tx.put(b"k".to_vec(), b"pending".to_vec());
    assert_eq!(tx.get(&mut db, b"k"), Some(b"pending".to_vec()));
    tx.delete(b"k");
    assert_eq!(tx.get(&mut db, b"k"), None);
    assert_eq!(db.get(b"k"), Some(b"committed".to_vec()));
    assert_eq!(tx.pending_value(b"other"), None);
}

#[test]
fn take_operations_hands_out_writes_in_order() {
    let db = database();
    let mut tx = db.begin_transaction();
    tx.put(b"a".to_vec(), b"1".to_vec());
    tx.delete(b"a");
    let ops = tx.take_operations();
    assert_eq!(ops.len(), 2);
    assert!(matches!(&ops[0], Operation::Put(k, v) if k == b"a" && v == b"1"));
    assert!(matches!(&ops[1], Operation::Delete(k) if k == b"a"));
    assert!(tx.take_operations().is_empty());
}

#[test]
fn rollback_discards_writes() {
    let mut db = database();
    let mut tx = db.begin_transaction();
    tx.put(b"a".to_vec(), b"1".to_vec());
    tx.rollback();
    assert_eq!(tx.pending_value(b"a"), None);
    assert_eq!(db.get(b"a"), None);
}

#[test]
fn transaction_lock_is_shared_with_the_manager() {
    let manager = TransactionManager::new();
    let a = manager.get_lock();
    let b = manager.get_lock();
    assert!(Arc::ptr_eq(&a, &b));
    let db = database();
    let tx = db.begin_transaction();
    let _guard = tx.lock().lock().unwrap();
}

#[test]
fn replay_applies_the_log_in_order() {
    let mut db = database();
    let mut log = encode_put(b"a", b"1");
    log.extend(encode_put(b"b", b"2"));
    log.extend(rustdb::wal::log::encode_delete(b"a"));
    log.extend(rustdb::wal::log::encode_index_put(b"s", b"b"));
    let (entries, error) = decode_log(&log);
    assert!(error.is_none());
    assert_eq!(db.replay(entries), Ok(()));
    assert_eq!(db.get(b"a"), None);
    assert_eq!(db.get_by_secondary(b"s"), Some(b"2".to_vec()));
}

#[test]
fn replay_stops_at_an_entry_that_does_not_fit() {
    let mut db = database();
    let entries = vec![
        WALEntry::Put(b"a".to_vec(), b"1".to_vec()),
        WALEntry::Put(b"big".to_vec(), vec![0u8; 5000]),
        WALEntry::Put(b"c".to_vec(), b"3".to_vec()),
    ];
    assert_eq!(db.replay(entries), Err(1));
    assert_eq!(db.get(b"a"), Some(b"1".to_vec()));
    assert_eq!(db.get(b"c"), None);
}

#[test]
fn apply_pending_commits_in_order() {
    let mut db = database();
    db.put(b"gone".to_vec(), b"x".to_vec());
    let mut tx = db.begin_transaction();
    tx.put(b"k".to_vec(), b"1".to_vec());
    tx.put(b"k".to_vec(), b"2".to_vec());
    tx.delete(b"gone");
    let mut expected = encode_put(b"k", b"1");
    expected.extend(encode_put(b"k", b"2"));
    expected.extend(rustdb::wal::log::encode_delete(b"gone"));
    assert_eq!(tx.encode_pending(), expected);
    assert_eq!(tx.apply_pending(&mut db), Ok(()));
    assert_eq!(db.get(b"k"), Some(b"2".to_vec()));
    assert_eq!(db.get(b"gone"), None);
    assert!(tx.take_operations().is_empty());
}

#[test]
fn apply_pending_stops_at_a_write_that_does_not_fit() {
    let mut db = database();
    let mut tx = db.begin_transaction();
    tx.put(b"a".to_vec(), b"1".to_vec());
    tx.put(b"b".to_vec(), vec![0u8; 5000]);
    assert_eq!(tx.check_pending(&db), Err(1));
    assert_eq!(tx.apply_pending(&mut db), Err(1));
    // all or nothing: the first write is not applied either
    assert_eq!(db.get(b"a"), None);
    assert_eq!(db.get(b"b"), None);
    // the transaction still holds both writes
    assert_eq!(tx.pending_value(b"a"), Some(Some(b"1".to_vec())));
    assert_eq!(tx.take_operations().len(), 2);
}

#[test]
fn check_pending_follows_earlier_writes() {
    let mut db = database();
    let mut tx = db.begin_transaction();
    // each value fits alone, but not both in one page
    tx.put(b"a".to_vec(), vec![1u8; 3000]);
    tx.put(b"b".to_vec(), vec![2u8; 3000]);
    assert_eq!(tx.check_pending(&db), Err(1));
    let mut tx = db.begin_transaction();
    tx.put(b"a".to_vec(), vec![1u8; 3000]);
    tx.delete(b"a");
    tx.put(b"b".to_vec(), vec![2u8; 3000]);
    assert_eq!(tx.check_pending(&db), Ok(()));
    assert_eq!(tx.apply_pending(&mut db), Ok(()));
    assert_eq!(db.get(b"b"), Some(vec![2u8; 3000]));
}

#[test]
fn marking_pages_clean_after_a_write() {
    let mut db = database();
    db.put(b"a".to_vec(), b"1".to_vec());
    assert_eq!(db.tree().buffer_pool().dirty_page_ids(), vec![0]);
    db.mark_primary_clean(0);
    assert!(db.tree().buffer_pool().dirty_page_ids().is_empty());
    assert!(!db.tree().buffer_pool().page(0).is_dirty);
    assert_eq!(db.get(b"a"), Some(b"1".to_vec()));
    db.mark_secondary_clean(0);
    assert!(db.secondary_index().buffer_pool().dirty_page_ids().is_empty());
}
