use bitcask::error::Error;
use bitcask::log_record::{get_crc_32, BatchState, Record, RecordPosition, RecordReader, RecordType};

#[test]
fn record_encode_and_decode() {
    let record = Record {
        record_type: RecordType::Normal,
        key: "cxk".into(),
        value: "kk".into(),
        batch_state: BatchState::Disable,
    };

    let encode_data = record.encode();

    let reader = RecordReader::decode_from_vec(encode_data).unwrap();

    assert_eq!(reader.key(), "cxk".as_bytes());
    assert_eq!(reader.value(), "kk".as_bytes());
}

#[test]
fn round_trip_every_batch_state() {
    for state in [BatchState::Disable, BatchState::Enable(7), BatchState::Finish(u64::MAX)] {
        for t in [RecordType::Normal, RecordType::Deleted] {
            let value: Vec<u8> = if t == RecordType::Normal { b"value".to_vec() } else { Vec::new() };
            let record = Record { record_type: t, key: b"key".to_vec(), value: value.clone(), batch_state: state };
            let bytes = record.encode();
            assert_eq!(bytes.len(), record.get_encode_len());
            let rd = RecordReader::decode_from_vec(bytes.clone()).unwrap();
            assert_eq!(rd.key(), b"key");
            assert_eq!(rd.value(), value.as_slice());
            assert_eq!(rd.record_type(), t);
            assert_eq!(rd.batch_state(), state);
            assert_eq!(rd.size(), bytes.len());
            let back = rd.to_record();
            assert_eq!(back.key, b"key".to_vec());
            assert_eq!(back.batch_state, state);
        }
    }
}

#[test]
fn encoded_layout() {
    let record = Record::normal(b"ab".to_vec(), b"xyz".to_vec());
    let bytes = record.encode();
    assert_eq!(record.get_encode_len(), 27);
    assert_eq!(&bytes[0..8], &27u64.to_be_bytes());
    assert_eq!(bytes[8], 1);
    assert_eq!(bytes[9], 2);
    assert_eq!(&bytes[10..14], &2u32.to_be_bytes());
    assert_eq!(&bytes[14..18], &3u32.to_be_bytes());
    assert_eq!(&bytes[18..20], b"ab");
    assert_eq!(&bytes[20..23], b"xyz");
    let crc = get_crc_32(&bytes[..23]);
    assert_eq!(&bytes[23..27], &crc.to_be_bytes());

    let mut batched = Record::deleted(b"k".to_vec());
    batched.enable_batch(5).unwrap();
    let bytes = batched.encode();
    assert_eq!(bytes.len(), 31);
    assert_eq!(bytes[8], 0);
    assert_eq!(bytes[9], 0);
    assert_eq!(&bytes[10..18], &5u64.to_be_bytes());
    batched.disable_batch().unwrap();
    assert_eq!(batched.batch_state, BatchState::Disable);
}

#[test]
fn crc_of_check_string() {
    assert_eq!(get_crc_32(b"123456789"), 0xCBF4_3926);
    assert_eq!(get_crc_32(b""), 0);
}

#[test]
fn corrupt_records_are_rejected() {
    let mut bytes = Record::normal(b"key".to_vec(), b"value".to_vec()).encode();
    let last = bytes.len() - 1;
    bytes[last] ^= 0xff;
    assert!(matches!(RecordReader::decode_from_vec(bytes), Err(Error::Corrupt)));

    let mut bytes = Record::normal(b"key".to_vec(), b"value".to_vec()).encode();
    bytes[20] ^= 0x01;
    assert!(matches!(RecordReader::decode_from_vec(bytes), Err(Error::Corrupt)));

    assert!(matches!(RecordReader::decode_from_vec(vec![0u8; 10]), Err(Error::Corrupt)));
    assert!(matches!(RecordReader::decode(&[0u8; 40], 0), Err(Error::Corrupt)));
}

#[test]
fn decode_at_offset() {
    let mut file = Record::normal(b"a".to_vec(), b"1".to_vec()).encode();
    let first = file.len() as u64;
    file.extend(Record::deleted(b"b".to_vec()).encode());
    let rd = RecordReader::decode(&file, first).unwrap();
    assert_eq!(rd.key(), b"b");
    assert_eq!(rd.record_type(), RecordType::Deleted);
    assert!(RecordReader::decode(&file, file.len() as u64).is_err());
}

#[test]
fn special_records() {
    let bf = Record::batch_finished(9);
    assert_eq!(bf.key, b"BF".to_vec());
    assert!(bf.value.is_empty());
    assert_eq!(bf.batch_state, BatchState::Finish(9));
    let mf = Record::merge_finished(0x0102_0304);
    assert_eq!(mf.key, b"MF".to_vec());
    assert_eq!(mf.value, vec![1, 2, 3, 4]);
    assert_eq!(mf.record_type, RecordType::Normal);
}

#[test]
fn position_round_trip() {
    let p = RecordPosition::new(7, 0x1122_3344_5566_7788, 99);
    let bytes = p.encode();
    assert_eq!(bytes.len(), 16);
    assert_eq!(&bytes[0..4], &7u32.to_be_bytes());
    let q = RecordPosition::decode(&bytes);
    assert_eq!(p, q);
}
