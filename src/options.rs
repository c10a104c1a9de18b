use vstd::prelude::*;
use vstd::string::StringExecFns;

use crate::error::Error;

verus! {

/// How a store is opened.
#[derive(Clone, Debug)]
pub struct BitcaskOptions {
    /// Directory of the store.
    pub db_path: String,
    /// A data file is rotated before it would grow past this many bytes.
    pub max_file_size: usize,
    /// Whether every write is flushed to stable storage.
    pub write_sync: bool,
    /// Number of index shards.
    pub index_num: u8,
}

/// The path is non-empty and the maximum file size positive.
pub open spec fn options_valid(opts: &BitcaskOptions) -> bool {
    opts.db_path@.len() > 0 && opts.max_file_size > 0
}

pub fn check_options(opts: &BitcaskOptions) -> (r: Result<(), Error>)
    ensures
        r is Ok <==> options_valid(opts),
        r is Err ==> r == Err::<(), Error>(Error::InvalidOption),
{
    if opts.db_path.as_str().is_empty() {
        return Err(Error::InvalidOption);
    }
    if opts.max_file_size == 0 {
        return Err(Error::InvalidOption);
    }
    Ok(())
}

impl Default for BitcaskOptions {
    fn default() -> (r: Self)
        ensures
            r.db_path@ == "/tmp/bitcask_tmp"@,
            r.max_file_size == 262144,
            !r.write_sync,
            r.index_num == 8,
    {
        BitcaskOptions {
            db_path: String::from_str("/tmp/bitcask_tmp"),
            max_file_size: 256 * 1024,
            write_sync: false,
            index_num: 8,
        }
    }
}

/// How a batch is committed.
#[derive(Clone, Copy, Debug)]
pub struct WriteBatchOptions {
    /// Most entries a batch may hold at commit.
    pub max_batch_size: usize,
    /// Whether commit flushes to stable storage.
    pub write_sync: bool,
}

impl Default for WriteBatchOptions {
    fn default() -> (r: Self)
        ensures
            r.max_batch_size == 4096,
            r.write_sync,
    {
        WriteBatchOptions { max_batch_size: 4096, write_sync: true }
    }
}

} // verus!
