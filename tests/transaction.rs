use std::collections::HashSet;

use bitcask::error::Error;
use bitcask::key::{check_key_valid, KeySlice};
use bitcask::options::BitcaskOptions;
use bitcask::skip_list::SkipList;
use bitcask::log_record::RecordPosition;
use bitcask::storage::{Bitcask, DbFiles};
use bitcask::transaction::{Transaction, TxnEngine, TxnSearchType};

fn engine() -> TxnEngine {
    let db = Bitcask::open(BitcaskOptions::default(), DbFiles { data_files: Vec::new(), hint_file: None, merge_file: None }).unwrap();
    TxnEngine::new(db, Vec::new(), 0).unwrap()
}

#[test]
fn txn_conflict() {
    let mut e = engine();
    let t1 = e.begin_transaction();
    let t2 = e.begin_transaction();
    t1.put(&mut e, b"k", b"a").unwrap();
    t1.commit(&mut e).unwrap();
    assert_eq!(t2.put(&mut e, b"k", b"b"), Err(Error::TxnConflict));
}

#[test]
fn txn_rollback() {
    let mut e = engine();
    let t = e.begin_transaction();
    t.put(&mut e, b"k", b"v").unwrap();
    t.rollback(&mut e).unwrap();
    let t2 = e.begin_transaction();
    assert_eq!(t2.get(&e, b"k"), Err(Error::NotFound));
}

#[test]
fn txn_reads_own_and_older_writes() {
    let mut e = engine();
    let t1 = e.begin_transaction();
    t1.put(&mut e, b"k", b"one").unwrap();
    assert_eq!(t1.get(&e, b"k").unwrap(), b"one".to_vec());
    t1.commit(&mut e).unwrap();
    let t2 = e.begin_transaction();
    assert_eq!(t2.get(&e, b"k").unwrap(), b"one".to_vec());
    t2.put(&mut e, b"k", b"two").unwrap();
    let t3 = e.begin_transaction();
    // t2 was active when t3 began, so its write stays invisible to t3
    assert_eq!(t3.get(&e, b"k").unwrap(), b"one".to_vec());
    assert_eq!(t2.get(&e, b"k").unwrap(), b"two".to_vec());
    t2.delete(&mut e, b"k").unwrap();
    assert_eq!(t2.get(&e, b"k"), Err(Error::NotFound));
    assert_eq!(t2.get(&e, b""), Err(Error::EmptyKey));
    assert_eq!(t2.put(&mut e, b"", b"x"), Err(Error::EmptyKey));
}

#[test]
fn visibility_is_monotone() {
    let mut active = HashSet::new();
    active.insert(3u64);
    let t = Transaction { ts: 5, active_txn_ids: active };
    let seen: Vec<bool> = (0..8u64).map(|ts| t.is_visible(ts)).collect();
    assert_eq!(seen, vec![true, true, true, false, true, true, false, false]);
}

#[test]
fn rollback_of_uncommitted_on_restart() {
    let mut e = engine();
    let t = e.begin_transaction();
    t.put(&mut e, b"k", b"v").unwrap();
    let (uncommitted, ts) = e.manifest();
    assert_eq!(uncommitted.len(), 1);
    assert_eq!(ts, 1);
    let files = e.storage.to_files();
    let db = Bitcask::open(BitcaskOptions::default(), files).unwrap();
    let mut restarted = TxnEngine::new(db, uncommitted, ts).unwrap();
    let t2 = restarted.begin_transaction();
    assert_eq!(t2.ts, 1);
    assert_eq!(t2.get(&restarted, b"k"), Err(Error::NotFound));
    restarted.sync().unwrap();
    restarted.close().unwrap();
}

#[test]
fn versioned_key_layout() {
    let k = KeySlice::new(b"ab".to_vec(), 0x0102).encode();
    assert_eq!(k, vec![b'a', b'b', 0, 0, 0, 0, 0, 0, 1, 2]);
    assert_eq!(check_key_valid(&Vec::new()), Err(Error::EmptyKey));
    assert_eq!(check_key_valid(&b"a".to_vec()), Ok(()));
}

#[test]
fn prefix_search_picks_newest_visible() {
    let mut s = SkipList::new();
    let pos = |n: u32| RecordPosition::new(0, n as u64, 1);
    for ts in [1u64, 4, 9] {
        s.put(KeySlice::new(b"k".to_vec(), ts).encode(), pos(ts as u32)).unwrap();
    }
    s.put(b"kx".to_vec(), pos(100)).unwrap();
    let mut active = HashSet::new();
    active.insert(4u64);
    let t = Transaction { ts: 6, active_txn_ids: active };
    assert_eq!(s.txn_prefix_search(b"k", TxnSearchType::Read, &t), Ok((pos(1), 1)));
    assert_eq!(s.txn_prefix_search(b"k", TxnSearchType::Write, &t), Err(Error::TxnConflict));
    assert_eq!(s.txn_prefix_search(b"z", TxnSearchType::Read, &t), Err(Error::NotFound));
    let late = Transaction { ts: 10, active_txn_ids: HashSet::new() };
    assert_eq!(s.txn_prefix_search(b"k", TxnSearchType::Write, &late), Ok((pos(9), 9)));
}

#[test]
fn skip_list_operations() {
    let mut s = SkipList::new();
    assert!(s.is_empty());
    let p = RecordPosition::new(1, 2, 3);
    assert_eq!(s.put(b"a".to_vec(), p), Ok(None));
    let q = RecordPosition::new(4, 5, 6);
    assert_eq!(s.put(b"a".to_vec(), q), Ok(Some(p)));
    assert_eq!(s.get(b"a"), Some(q));
    assert!(s.exits(b"a"));
    assert!(!s.is_empty());
    assert_eq!(s.delete(b"a"), Ok(q));
    assert_eq!(s.delete(b"a"), Err(Error::NotFound));
    assert_eq!(s.get(b"a"), None);
}

#[test]
fn commit_keeps_storage_while_others_run() {
    let mut e = engine();
    let t1 = e.begin_transaction();
    let t2 = e.begin_transaction();
    t1.put(&mut e, b"k", b"a").unwrap();
    t1.commit(&mut e).unwrap();
    assert_eq!(e.manager.active_txn.len(), 1);
    assert_eq!(t2.put(&mut e, b"k", b"b"), Err(Error::TxnConflict));
    t2.commit(&mut e).unwrap();
    assert_eq!(e.clean_up(), Ok(()));
    let t3 = e.begin_transaction();
    assert_eq!(t3.get(&e, b"k").unwrap(), b"a".to_vec());
}
