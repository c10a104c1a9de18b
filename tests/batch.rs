use bitcask::error::Error;
use bitcask::options::{BitcaskOptions, WriteBatchOptions};
use bitcask::storage::{Bitcask, DbFiles};

fn open() -> Bitcask {
    Bitcask::open(BitcaskOptions::default(), DbFiles { data_files: Vec::new(), hint_file: None, merge_file: None }).unwrap()
}

#[test]
fn batch_applies_last_write_per_key() {
    let mut db = open();
    db.put(b"gone", b"x").unwrap();
    let mut batch = db.new_batch_write(WriteBatchOptions::default()).unwrap();
    batch.put(b"a", b"1").unwrap();
    batch.put(b"a", b"2").unwrap();
    batch.put(b"b", b"3").unwrap();
    batch.delete(&db, b"gone").unwrap();
    assert_eq!(db.get(b"a"), Err(Error::NotFound));
    batch.commit(&mut db).unwrap();
    assert_eq!(db.get(b"a").unwrap(), b"2".to_vec());
    assert_eq!(db.get(b"b").unwrap(), b"3".to_vec());
    assert_eq!(db.get(b"gone"), Err(Error::NotFound));
    assert!(batch.pending.is_empty());
}

#[test]
fn batch_delete_of_unpersisted_key_drops_write() {
    let db = open();
    let mut batch = db.new_batch_write(WriteBatchOptions::default()).unwrap();
    batch.put(b"new", b"1").unwrap();
    batch.delete(&db, b"new").unwrap();
    assert!(batch.pending.is_empty());
    batch.delete(&db, b"other").unwrap();
    assert_eq!(batch.pending.len(), 1);
}

#[test]
fn batch_too_large() {
    let mut db = open();
    let mut batch = db.new_batch_write(WriteBatchOptions { max_batch_size: 2, write_sync: false }).unwrap();
    batch.put(b"a", b"1").unwrap();
    batch.put(b"b", b"1").unwrap();
    batch.put(b"c", b"1").unwrap();
    assert_eq!(batch.commit(&mut db), Err(Error::BatchTooLarge));
    assert_eq!(db.get(b"a"), Err(Error::NotFound));
}

#[test]
fn empty_batch_commits() {
    let mut db = open();
    let mut batch = db.new_batch_write(WriteBatchOptions::default()).unwrap();
    assert_eq!(batch.commit(&mut db), Ok(()));
    assert!(db.is_empty());
}

#[test]
fn committed_batch_survives_reopen() {
    let mut db = open();
    let mut batch = db.new_batch_write(WriteBatchOptions::default()).unwrap();
    batch.put(b"x", b"1").unwrap();
    batch.put(b"y", b"2").unwrap();
    batch.commit(&mut db).unwrap();
    let reopened = Bitcask::open(BitcaskOptions::default(), db.to_files()).unwrap();
    assert_eq!(reopened.get(b"x").unwrap(), b"1".to_vec());
    assert_eq!(reopened.get(b"y").unwrap(), b"2".to_vec());
}
