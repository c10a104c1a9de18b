pub mod batch_write;
pub mod consts;
pub mod datafile;
pub mod endian;
pub mod error;
pub mod key;
pub mod log_record;
pub mod merge;
pub mod options;
pub mod skip_list;
pub mod storage;
pub mod transaction;
pub mod txn_manager;
pub mod utils;
