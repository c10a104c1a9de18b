use bitcask::error::Error;
use bitcask::log_record::{Record, RecordReader};
use bitcask::options::{check_options, BitcaskOptions, WriteBatchOptions};
use bitcask::storage::{Bitcask, DbFiles};

fn no_files() -> DbFiles {
    DbFiles { data_files: Vec::new(), hint_file: None, merge_file: None }
}

fn opts_with(max_file_size: usize) -> BitcaskOptions {
    BitcaskOptions { max_file_size, ..BitcaskOptions::default() }
}

fn fmt9(i: u32) -> String {
    format!("{:09}", i)
}

#[test]
fn test_bitcask_put_get_delete() {
    let ops = BitcaskOptions::default();
    let mut bitcask = Bitcask::open(ops, no_files()).unwrap();

    bitcask.put("foo".as_bytes(), "ddd".as_bytes()).unwrap();
    bitcask.put("ddd".as_bytes(), "foo".as_bytes()).unwrap();

    let value = bitcask.get("foo".as_bytes()).unwrap();
    assert_eq!("ddd".as_bytes(), value.as_slice());

    let value = bitcask.get("ddd".as_bytes()).unwrap();
    assert_eq!("foo".as_bytes(), value.as_slice());

    bitcask.delete("foo".as_bytes()).unwrap();
    assert_eq!(bitcask.get("foo".as_bytes()), Err(Error::NotFound));
}

#[test]
fn test_bitcask_merge() {
    let ops = BitcaskOptions::default();
    let mut bitcask = Bitcask::open(ops, no_files()).unwrap();

    for i in 0..1000 {
        for _ in 0..100 {
            bitcask.put(fmt9(i).as_bytes(), fmt9(i).as_bytes()).unwrap();
        }
    }

    let merged = bitcask.merge().unwrap().unwrap();
    bitcask.close().unwrap();
    let files = bitcask.to_files().adopt_merge(&merged);

    let ops = BitcaskOptions::default();
    let bitcask = Bitcask::open(ops, files).unwrap();
    for i in 0..1000 {
        let value = bitcask.get(fmt9(i).as_bytes()).unwrap();
        assert_eq!(fmt9(i).as_bytes(), value.as_slice());
    }
}

#[test]
fn test_bitcask_write_batch() {
    let files = {
        let ops = BitcaskOptions::default();
        let mut bitcask = Bitcask::open(ops, no_files()).unwrap();
        let batch_ops = WriteBatchOptions::default();
        let mut batch = bitcask.new_batch_write(batch_ops).unwrap();
        for i in 0..1000 {
            for _ in 0..100 {
                batch.put(fmt9(i).as_bytes(), fmt9(i).as_bytes()).unwrap();
            }
        }
        batch.commit(&mut bitcask).unwrap();
        let merged = bitcask.merge().unwrap().unwrap();
        bitcask.close().unwrap();
        bitcask.to_files().adopt_merge(&merged)
    };

    let ops = BitcaskOptions::default();
    let bitcask = Bitcask::open(ops, files).unwrap();
    for i in 0..1000 {
        let value = bitcask.get(fmt9(i).as_bytes()).unwrap();
        assert_eq!(fmt9(i).as_bytes(), value.as_slice());
    }
}

#[test]
fn reopen_after_sync_keeps_values() {
    let mut db = Bitcask::open(opts_with(200), no_files()).unwrap();
    for i in 0..50u32 {
        db.put(fmt9(i).as_bytes(), format!("v{}", i).as_bytes()).unwrap();
    }
    db.delete(fmt9(3).as_bytes()).unwrap();
    db.put(fmt9(4).as_bytes(), b"again").unwrap();
    db.sync().unwrap();
    let reopened = Bitcask::open(opts_with(200), db.to_files()).unwrap();
    for i in 0..50u32 {
        assert_eq!(reopened.get(fmt9(i).as_bytes()), db.get(fmt9(i).as_bytes()));
    }
    assert_eq!(reopened.get(fmt9(3).as_bytes()), Err(Error::NotFound));
    assert_eq!(reopened.get(fmt9(4).as_bytes()).unwrap(), b"again".to_vec());
}

#[test]
fn open_close_open_is_identity() {
    let mut db = Bitcask::open(BitcaskOptions::default(), no_files()).unwrap();
    db.put(b"a", b"1").unwrap();
    db.put(b"b", b"2").unwrap();
    db.close().unwrap();
    let mut again = Bitcask::open(BitcaskOptions::default(), db.to_files()).unwrap();
    again.close().unwrap();
    let third = Bitcask::open(BitcaskOptions::default(), again.to_files()).unwrap();
    assert_eq!(third.get(b"a").unwrap(), b"1".to_vec());
    assert_eq!(third.get(b"b").unwrap(), b"2".to_vec());
    assert_eq!(third.get(b"c"), Err(Error::NotFound));
}

#[test]
fn delete_then_get_is_not_found() {
    let mut db = Bitcask::open(BitcaskOptions::default(), no_files()).unwrap();
    db.put(b"k", b"v").unwrap();
    db.delete(b"k").unwrap();
    assert_eq!(db.get(b"k"), Err(Error::NotFound));
}

#[test]
fn put_twice_same_as_once() {
    let mut once = Bitcask::open(BitcaskOptions::default(), no_files()).unwrap();
    let mut twice = Bitcask::open(BitcaskOptions::default(), no_files()).unwrap();
    once.put(b"k", b"v").unwrap();
    twice.put(b"k", b"v").unwrap();
    twice.put(b"k", b"v").unwrap();
    assert_eq!(once.get(b"k"), twice.get(b"k"));
    assert_eq!(twice.get(b"k").unwrap(), b"v".to_vec());
}

#[test]
fn delete_twice_is_ok() {
    let mut db = Bitcask::open(BitcaskOptions::default(), no_files()).unwrap();
    db.put(b"k", b"v").unwrap();
    db.delete(b"k").unwrap();
    assert_eq!(db.delete(b"k"), Ok(()));
    assert_eq!(db.get(b"k"), Err(Error::NotFound));
    assert_eq!(db.delete(b"never"), Ok(()));
}

#[test]
fn empty_key_is_rejected() {
    let mut db = Bitcask::open(BitcaskOptions::default(), no_files()).unwrap();
    assert_eq!(db.put(b"", b"v"), Err(Error::EmptyKey));
    assert_eq!(db.get(b""), Err(Error::EmptyKey));
    assert_eq!(db.delete(b""), Err(Error::EmptyKey));
    let mut batch = db.new_batch_write(WriteBatchOptions::default()).unwrap();
    assert_eq!(batch.put(b"", b"v"), Err(Error::EmptyKey));
    assert_eq!(batch.delete(&db, b""), Err(Error::EmptyKey));
}

#[test]
fn zero_length_value_is_permitted() {
    let mut db = Bitcask::open(BitcaskOptions::default(), no_files()).unwrap();
    db.put(b"k", b"").unwrap();
    assert_eq!(db.get(b"k").unwrap(), Vec::<u8>::new());
}

#[test]
fn record_of_exactly_max_size_rotates_on_next_write() {
    // a normal record of key "k" and value of n bytes takes 23 + n bytes
    let mut db = Bitcask::open(opts_with(100), no_files()).unwrap();
    let value = vec![7u8; 77];
    let pos = db.append_record(&Record::normal(b"k".to_vec(), value.clone())).unwrap();
    assert_eq!(pos.size, 100);
    assert_eq!(pos.file_id, 0);
    assert_eq!(db.active_file.id, 0);
    db.put(b"x", b"").unwrap();
    assert_eq!(db.active_file.id, 1);
    assert_eq!(db.active_file.write_offset, 23);
}

#[test]
fn file_offsets_sum_to_bytes_written() {
    let mut db = Bitcask::open(opts_with(64), no_files()).unwrap();
    let mut total: u64 = 0;
    for i in 0..40u32 {
        let r = Record::normal(fmt9(i).into_bytes(), vec![1u8; (i % 7) as usize]);
        total += r.get_encode_len() as u64;
        db.append_record(&r).unwrap();
    }
    assert!(db.active_file.id > 0);
    let sum: u64 = db.data_files().iter().map(|(_, b)| b.len() as u64).sum();
    assert_eq!(sum, total);
    assert_eq!(db.bytes_written, total);
}

#[test]
fn written_position_decodes_to_record() {
    let mut db = Bitcask::open(opts_with(80), no_files()).unwrap();
    let mut positions = Vec::new();
    for i in 0..10u32 {
        let r = Record::normal(fmt9(i).into_bytes(), format!("value-{}", i).into_bytes());
        positions.push((i, db.append_record(&r).unwrap()));
    }
    let files = db.data_files();
    for (i, p) in positions {
        let bytes = &files.iter().find(|(id, _)| *id == p.file_id).unwrap().1;
        let slice = bytes[p.offset as usize..(p.offset + p.size as u64) as usize].to_vec();
        let rd = RecordReader::decode_from_vec(slice).unwrap();
        assert_eq!(rd.key(), fmt9(i).as_bytes());
        assert_eq!(rd.value(), format!("value-{}", i).as_bytes());
        let via_store = db.get_record_with_pos(p).unwrap();
        assert_eq!(via_store.value(), rd.value());
    }
}

#[test]
fn unfinished_batch_is_discarded_on_recovery() {
    let mut db = Bitcask::open(BitcaskOptions::default(), no_files()).unwrap();
    db.put(b"plain", b"p").unwrap();
    for i in 0..10u32 {
        let mut r = Record::normal(fmt9(i).into_bytes(), b"batched".to_vec());
        r.enable_batch(77).unwrap();
        db.append_record(&r).unwrap();
    }
    let mut done = Record::normal(b"finished".to_vec(), b"f".to_vec());
    done.enable_batch(78).unwrap();
    db.append_record(&done).unwrap();
    db.append_record(&Record::batch_finished(78)).unwrap();

    let reopened = Bitcask::open(BitcaskOptions::default(), db.to_files()).unwrap();
    for i in 0..10u32 {
        assert_eq!(reopened.get(fmt9(i).as_bytes()), Err(Error::NotFound));
    }
    assert_eq!(reopened.get(b"finished").unwrap(), b"f".to_vec());
    assert_eq!(reopened.get(b"plain").unwrap(), b"p".to_vec());
    assert!(reopened.batch_seq > 78);
}

#[test]
fn merge_removes_merged_files() {
    let mut db = Bitcask::open(opts_with(128), no_files()).unwrap();
    for round in 0..5u32 {
        for i in 0..20u32 {
            db.put(fmt9(i).as_bytes(), format!("{}-{}", round, i).as_bytes()).unwrap();
        }
    }
    db.delete(fmt9(0).as_bytes()).unwrap();
    let before: Vec<Result<Vec<u8>, Error>> = (0..20u32).map(|i| db.get(fmt9(i).as_bytes())).collect();
    let merged = db.merge().unwrap().unwrap();
    let next = merged.next_file_id;
    let files = db.to_files();
    let old_ids: Vec<u32> = files.data_files.iter().map(|(id, _)| *id).collect();
    let adopted = files.adopt_merge(&merged);
    let merged_ids = merged.engine.data_files().len();
    assert!(adopted.data_files.len() < old_ids.len());
    assert!(adopted.data_files.iter().filter(|(id, _)| *id < next).count() == merged_ids);
    let reopened = Bitcask::open(opts_with(128), adopted).unwrap();
    for i in 0..20u32 {
        assert_eq!(reopened.get(fmt9(i).as_bytes()), before[i as usize]);
    }
}

#[test]
fn merge_of_empty_store_is_noop() {
    let mut db = Bitcask::open(BitcaskOptions::default(), no_files()).unwrap();
    assert!(db.merge().unwrap().is_none());
    assert!(db.is_empty());
}

#[test]
fn invalid_options() {
    let empty_path = BitcaskOptions { db_path: String::new(), ..BitcaskOptions::default() };
    assert_eq!(check_options(&empty_path), Err(Error::InvalidOption));
    assert!(matches!(Bitcask::open(empty_path, no_files()), Err(Error::InvalidOption)));
    let zero = opts_with(0);
    assert_eq!(check_options(&zero), Err(Error::InvalidOption));
    let no_shards = BitcaskOptions { index_num: 0, ..BitcaskOptions::default() };
    assert!(matches!(Bitcask::open(no_shards, no_files()), Err(Error::InvalidOption)));
    assert_eq!(check_options(&BitcaskOptions::default()), Ok(()));
}

#[test]
fn default_options() {
    let o = BitcaskOptions::default();
    assert_eq!(o.db_path, "/tmp/bitcask_tmp");
    assert_eq!(o.max_file_size, 256 << 10);
    assert!(!o.write_sync);
    assert_eq!(o.index_num, 8);
    let b = WriteBatchOptions::default();
    assert_eq!(b.max_batch_size, 1 << 12);
    assert!(b.write_sync);
}

#[test]
fn batch_spanning_rotation_is_recovered() {
    let mut a = Record::normal(b"a".to_vec(), b"1".to_vec());
    a.enable_batch(5).unwrap();
    let mut b = Record::deleted(b"gone".to_vec());
    b.enable_batch(5).unwrap();
    let mut file0 = Record::normal(b"gone".to_vec(), b"x".to_vec()).encode();
    file0.extend(a.encode());
    file0.extend(b.encode());
    let file1 = Record::batch_finished(5).encode();
    let files = DbFiles { data_files: vec![(0, file0), (1, file1)], hint_file: None, merge_file: None };
    let db = Bitcask::open(BitcaskOptions::default(), files).unwrap();
    assert_eq!(db.get(b"a").unwrap(), b"1".to_vec());
    assert_eq!(db.get(b"gone"), Err(Error::NotFound));
    assert!(db.batch_seq > 5);
}

#[test]
fn batch_commit_across_rotation_survives_reopen() {
    let mut db = Bitcask::open(opts_with(100), no_files()).unwrap();
    let mut batch = db.new_batch_write(WriteBatchOptions::default()).unwrap();
    for i in 0..10u32 {
        batch.put(fmt9(i).as_bytes(), b"value").unwrap();
    }
    batch.commit(&mut db).unwrap();
    assert!(db.active_file.id > 0);
    let reopened = Bitcask::open(opts_with(100), db.to_files()).unwrap();
    for i in 0..10u32 {
        assert_eq!(reopened.get(fmt9(i).as_bytes()).unwrap(), b"value".to_vec());
    }
}
