use vstd::prelude::*;

verus! {

pub const DATA_FILE_SUFFIX: &'static str = ".data";

pub const HINT_FILE_NAME: &'static str = "index.HINT";

pub const MERGE_FILE_NAME: &'static str = "db.MERGE";

pub const FILE_LOCK: &'static str = "FILE_LOCK";

pub const TXN_FILE: &'static str = ".TXN";

} // verus!
