use bitcask::consts::HINT_FILE_NAME;
use bitcask::datafile::DataFile;
use bitcask::log_record::{BatchState, Record, RecordReader};
use bitcask::utils::{get_data_file_path, get_merge_path};

#[test]
fn new() {
    let temp_dir = "/tmp";

    let data_file1 = DataFile::new(temp_dir, 0).unwrap();
    assert_eq!(data_file1.id, 0);
    assert_eq!(data_file1.write_offset, 0);

    let data_file2 = DataFile::new(temp_dir, 0).unwrap();
    assert_eq!(data_file2.id, 0);
    assert_eq!(data_file2.write_offset, 0);

    let data_file3 = DataFile::new(temp_dir, 666).unwrap();
    assert_eq!(data_file3.id, 666);
    assert_eq!(data_file3.write_offset, 0);

    let hint_file = DataFile::hint_file(temp_dir).unwrap();
    assert_eq!(hint_file.id, 0);
    assert_eq!(hint_file.path_str(), format!("/tmp/{}", HINT_FILE_NAME));

    let merge_finish_file = DataFile::merge_file(temp_dir).unwrap();
    assert_eq!(merge_finish_file.id, 0);
    assert_eq!(merge_finish_file.path_str(), "/tmp/db.MERGE");
}

#[test]
fn write() {
    let mut data_file = DataFile::new("/tmp", 0).unwrap();
    assert_eq!(data_file.id, 0);

    let record = Record::normal("foo".into(), "bar".into());
    let encoded_record = record.encode();
    let write_size = data_file.write_record(&record).unwrap();
    assert_eq!(encoded_record.len() as u32, write_size);

    let record = Record::normal("foo".into(), "".into());
    let encoded_record = record.encode();
    let write_size = data_file.write_record(&record).unwrap();
    assert_eq!(encoded_record.len() as u32, write_size);

    let record = Record::deleted("foo".into());
    let encoded_record = record.encode();
    let write_size = data_file.write_record(&record).unwrap();
    assert_eq!(encoded_record.len() as u32, write_size);
}

#[test]
fn read() {
    let mut data_file = DataFile::new("/tmp", 0).unwrap();
    assert_eq!(data_file.id, 0);

    let record = Record::normal("foo".into(), "baraaa".into());
    data_file.write_record(&record).unwrap();
    let read_record = data_file.read_record(0).unwrap();
    let mut size = read_record.size();
    assert_eq!(record.key, read_record.key());
    assert_eq!(record.value, read_record.value());
    assert_eq!(record.record_type, read_record.record_type());

    let record = Record::normal("foo".into(), Default::default());
    data_file.write_record(&record).unwrap();
    let read_record = data_file.read_record(size as u64).unwrap();
    size += read_record.size();
    assert_eq!(record.key, read_record.key());
    assert_eq!(record.value, read_record.value());
    assert_eq!(record.record_type, read_record.record_type());

    let record = Record::deleted("foo".into());
    data_file.write_record(&record).unwrap();
    let read_record = data_file.read_record(size as u64).unwrap();
    size += read_record.size();
    assert_eq!(record.key, read_record.key());
    assert_eq!(record.value, read_record.value());
    assert_eq!(record.record_type, read_record.record_type());

    let mut record = Record::normal("foo".into(), "f".into());
    record.enable_batch(1).unwrap();
    data_file.write_record(&record).unwrap();
    let read_record = data_file.read_record(size as u64).unwrap();
    size += read_record.size();
    assert_eq!(record.key, read_record.key());
    assert_eq!(record.value, read_record.value());
    assert_eq!(record.record_type, read_record.record_type());

    let record = Record::batch_finished(2);
    data_file.write_record(&record).unwrap();
    let read_record = data_file.read_record(size as u64).unwrap();
    assert_eq!(record.key, read_record.key());
    assert_eq!(record.value, read_record.value());
    assert_eq!(record.record_type, read_record.record_type());
    assert_eq!(read_record.batch_state(), BatchState::Finish(2));
}

#[test]
fn read_with_size_and_padding() {
    let mut f = DataFile::new("/tmp", 3).unwrap();
    let record = Record::normal(b"k".to_vec(), b"v".to_vec());
    let n = f.write_record(&record).unwrap() as u64;
    let rd = f.read_record_with_size(0, n).unwrap();
    assert_eq!(rd.key(), b"k");
    assert!(f.read_record_with_size(0, n - 1).is_err());
    assert!(f.read_record_with_size(1, n).is_err());
    f.padding(n + 5).unwrap();
    assert_eq!(f.write_offset, n + 5);
    assert_eq!(f.bytes().len() as u64, n + 5);
    assert!(f.bytes()[n as usize..].iter().all(|b| *b == 0));
    f.sync().unwrap();
    let reread = RecordReader::decode(f.bytes(), 0).unwrap();
    assert_eq!(reread.value(), b"v");
}

#[test]
fn paths() {
    assert_eq!(get_data_file_path("/tmp/db", 42), "/tmp/db/000000042.data");
    assert_eq!(get_data_file_path("/tmp/db", 4_000_000_000), "/tmp/db/4000000000.data");
    assert_eq!(get_data_file_path("d", 0), "d/000000000.data");
    assert_eq!(get_merge_path("/tmp/db"), "/tmp/db/.merge");
    assert_eq!(DataFile::new("/tmp/db", 7).unwrap().path_str(), "/tmp/db/000000007.data");
}
