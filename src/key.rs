use vstd::prelude::*;

use crate::endian::{be_u64, put_u64};
use crate::error::Error;

verus! {

/// Keys must be non-empty.
pub fn check_key_valid(key: &Vec<u8>) -> (r: Result<(), Error>)
    ensures
        r is Ok <==> key@.len() > 0,
        r is Err ==> r == Err::<(), Error>(Error::EmptyKey),
{
    if key.len() == 0 {
        return Err(Error::EmptyKey);
    }
    Ok(())
}

/// The key under which a transaction stores a version: the user key followed by the
/// big-endian timestamp.
pub open spec fn versioned_key(key: Seq<u8>, ts: u64) -> Seq<u8> {
    key + be_u64(ts)
}

/// A user key paired with a transaction timestamp.
pub struct KeySlice(pub Vec<u8>, pub u64);

impl KeySlice {
    pub fn new(key: Vec<u8>, ts: u64) -> (r: Self)
        ensures
            r.0@ == key@,
            r.1 == ts,
    {
        KeySlice(key, ts)
    }

    pub fn encode(self) -> (r: Vec<u8>)
        ensures
            r@ == versioned_key(self.0@, self.1),
    {
        let mut k = self.0;
        put_u64(&mut k, self.1);
        k
    }
}

} // verus!
