use bitcask::log_record::Record;
use bitcask::merge::{plan_merge_adoption, MergeAdoption};
use std::collections::HashMap;

use bitcask::error::Error;
use bitcask::options::BitcaskOptions;
use bitcask::storage::{Bitcask, DbFiles};
use bitcask::transaction::TxnEngine;
use bitcask::txn_manager::TxnManager;
use bitcask::utils::{load_data_file_ids, parse_file_id};

fn names(list: &[&str]) -> Vec<Vec<u8>> {
    list.iter().map(|s| s.as_bytes().to_vec()).collect()
}

#[test]
fn data_file_ids_are_parsed_and_sorted() {
    let dir = names(&["000000010.data", "FILE_LOCK", "index.HINT", "000000002.data", "db.MERGE", ".TXN", "7.data", "x1.data"]);
    assert_eq!(load_data_file_ids(&dir), Ok(vec![2, 7, 10]));
    assert_eq!(load_data_file_ids(&Vec::new()), Ok(Vec::new()));
}

#[test]
fn bad_data_file_name_is_corrupt() {
    assert_eq!(load_data_file_ids(&names(&["12a.data"])), Err(Error::Corrupt));
    assert_eq!(load_data_file_ids(&names(&["99999999999.data"])), Err(Error::Corrupt));
}

#[test]
fn file_id_parsing() {
    assert_eq!(parse_file_id(&b"000000042.data".to_vec()), Some(42));
    assert_eq!(parse_file_id(&b"4294967295.data".to_vec()), Some(u32::MAX));
    assert_eq!(parse_file_id(&b"4294967296.data".to_vec()), None);
    assert_eq!(parse_file_id(&b".data".to_vec()), None);
    assert_eq!(parse_file_id(&b"1.2.data".to_vec()), Some(1));
}

#[test]
fn manifest_encoding_matches_map_layout() {
    let db = Bitcask::open(BitcaskOptions::default(), DbFiles { data_files: Vec::new(), hint_file: None, merge_file: None }).unwrap();
    let mut e = TxnEngine::new(db, Vec::new(), 5).unwrap();
    let t = e.begin_transaction();
    t.put(&mut e, b"k", b"v").unwrap();
    let bytes = e.manifest_bytes().unwrap();

    let mut map: HashMap<u64, Vec<Vec<u8>>> = HashMap::new();
    map.insert(5, vec![b"k".to_vec()]);
    let expected = bincode::serialize(&(&map, 6u64)).unwrap();
    assert_eq!(bytes, expected);

    let (active, ts) = TxnManager::load_manifest(&bytes).unwrap();
    assert_eq!(ts, 6);
    assert_eq!(active, vec![(5u64, vec![b"k".to_vec()])]);
}

#[test]
fn empty_or_bad_manifest() {
    assert_eq!(TxnManager::load_manifest(&[]), Ok((Vec::new(), 0)));
    assert_eq!(TxnManager::load_manifest(&[1, 2, 3]), Err(Error::Corrupt));
}

#[test]
fn duplicate_ids_are_merged() {
    let dir = names(&["7.data", "007.data", "3.data"]);
    assert_eq!(load_data_file_ids(&dir), Ok(vec![3, 7]));
}

#[test]
fn merge_adoption_plan() {
    let names: Vec<String> = vec!["000000000.data".to_string(), "index.HINT".to_string(), "junk".to_string()];
    assert!(matches!(plan_merge_adoption(&names, None), Ok(MergeAdoption::Discard)));
    let mut with_manifest = names.clone();
    with_manifest.push("db.MERGE".to_string());
    let manifest = Record::merge_finished(4).encode();
    match plan_merge_adoption(&with_manifest, Some(manifest)) {
        Ok(MergeAdoption::Adopt { next_file_id, moves }) => {
            assert_eq!(next_file_id, 4);
            assert_eq!(moves, vec!["000000000.data".to_string(), "index.HINT".to_string(), "db.MERGE".to_string()]);
        }
        _ => panic!("expected adoption"),
    }
    assert!(matches!(plan_merge_adoption(&with_manifest, Some(vec![1, 2])), Err(Error::Corrupt)));
}
