use vstd::prelude::*;
use vstd::slice::{slice_subrange, slice_to_vec};

use crate::consts::{HINT_FILE_NAME, MERGE_FILE_NAME};
use crate::endian::put_slice;
use crate::error::Error;
use crate::log_record::{
    decode_spec, encodable, encoded_len, read_at_spec, record_bytes, size_at, Record,
    RecordReader,
};
use crate::utils::{data_file_name, get_data_file_path, join, join_path};

verus! {

/// An append-only log file: its id, its path, the bytes it holds, the offset at which
/// the next record goes, and how many of its bytes have been asked to be made durable.
pub struct DataFile {
    pub id: u32,
    pub write_offset: u64,
    pub path: String,
    pub data: Vec<u8>,
    pub synced: u64,
}

impl DataFile {
    /// The bytes of the file.
    pub open spec fn content(&self) -> Seq<u8> {
        self.data@
    }

    /// Where the file lives on disk.
    pub open spec fn path(&self) -> Seq<char> {
        self.path@
    }

    /// How many leading bytes have been flushed to stable storage.
    pub open spec fn synced_len(&self) -> nat {
        self.synced as nat
    }

    pub open spec fn wf(&self) -> bool {
        &&& self.write_offset <= self.data@.len()
        &&& self.synced <= self.data@.len()
    }

    /// A file of the given id and path holding `data`, to be written after `write_offset`.
    pub fn from_parts(id: u32, path: String, data: Vec<u8>) -> (r: Self)
        ensures
            r.wf(),
            r.id == id,
            r.path() == path@,
            r.content() == data@,
            r.write_offset == r.content().len(),
            r.synced_len() == data@.len(),
    {
        let n = data.len() as u64;
        DataFile { id, write_offset: n, path, data, synced: n }
    }

    fn empty(id: u32, path: String) -> (r: Self)
        ensures
            r.wf(),
            r.id == id,
            r.path() == path@,
            r.content() == Seq::<u8>::empty(),
            r.write_offset == 0,
    {
        DataFile { id, write_offset: 0, path, data: Vec::new(), synced: 0 }
    }

    /// An empty data file of the given id in directory `path`.
    pub fn empty_file(path: &str, file_id: u32) -> (r: Self)
        ensures
            r.wf() && r.id == file_id && r.write_offset == 0 && r.content().len() == 0,
    {
        Self::empty(file_id, get_data_file_path(path, file_id))
    }

    /// An empty data file of the given id in directory `path`.
    pub fn new(path: &str, file_id: u32) -> (r: Result<Self, Error>)
        ensures
            r matches Ok(f) && f.wf() && f.id == file_id && f.write_offset == 0
                && f.content().len() == 0 && f.path() == join_path(path@, data_file_name(file_id)),
    {
        Ok(Self::empty(file_id, get_data_file_path(path, file_id)))
    }

    /// An empty hint file in directory `path`.
    pub fn hint_file(path: &str) -> (r: Result<Self, Error>)
        ensures
            r matches Ok(f) && f.wf() && f.id == 0 && f.write_offset == 0
                && f.content().len() == 0 && f.path() == join_path(path@, HINT_FILE_NAME@),
    {
        Ok(Self::empty(0, join(path, HINT_FILE_NAME)))
    }

    /// An empty merge-finished file in directory `path`.
    pub fn merge_file(path: &str) -> (r: Result<Self, Error>)
        ensures
            r matches Ok(f) && f.wf() && f.id == 0 && f.write_offset == 0
                && f.content().len() == 0 && f.path() == join_path(path@, MERGE_FILE_NAME@),
    {
        Ok(Self::empty(0, join(path, MERGE_FILE_NAME)))
    }

    pub fn path_str(&self) -> (r: &str)
        ensures
            r@ == self.path(),
    {
        self.path.as_str()
    }

    pub fn bytes(&self) -> (r: &[u8])
        ensures
            r@ == self.content(),
    {
        self.data.as_slice()
    }

    /// Marks every byte written so far as one that must be durable.
    pub fn sync(&mut self) -> (r: Result<(), Error>)
        requires
            old(self).wf(),
        ensures
            r is Ok,
            final(self).wf(),
            final(self).synced_len() == final(self).content().len(),
            final(self).content() == old(self).content(),
            final(self).id == old(self).id,
            final(self).write_offset == old(self).write_offset,
            final(self).path() == old(self).path(),
    {
        self.synced = self.data.len() as u64;
        Ok(())
    }

    /// Writes zeros from the write offset up to `max`.
    pub fn padding(&mut self, max: u64) -> (r: Result<(), Error>)
        requires
            old(self).wf(),
            old(self).write_offset <= max,
        ensures
            r is Ok,
            final(self).wf(),
            final(self).content() == old(self).content().subrange(0, old(self).write_offset as int)
                + Seq::new((max - old(self).write_offset) as nat, |i: int| 0u8),
            final(self).write_offset == max,
            final(self).id == old(self).id,
            final(self).path() == old(self).path(),
    {
        let ghost prefix = self.data@.subrange(0, self.write_offset as int);
        self.truncate_to_offset();
        let len = max - self.write_offset;
        let mut i: u64 = 0;
        while i < len
            invariant
                i <= len,
                self.data@ == prefix + Seq::new(i as nat, |j: int| 0u8),
                self.synced <= self.data@.len(),
                self.id == old(self).id,
                self.path == old(self).path,
            decreases len - i,
        {
            self.data.push(0u8);
            i = i + 1;
            assert(self.data@ =~= prefix + Seq::new(i as nat, |j: int| 0u8));
        }
        self.write_offset = max;
        Ok(())
    }

    fn truncate_to_offset(&mut self)
        requires
            old(self).wf(),
        ensures
            final(self).data@ == old(self).data@.subrange(0, old(self).write_offset as int),
            final(self).synced <= final(self).data@.len(),
            final(self).write_offset == old(self).write_offset,
            final(self).id == old(self).id,
            final(self).path == old(self).path,
    {
        let off = self.write_offset as usize;
        self.data.truncate(off);
        if self.synced > self.write_offset {
            self.synced = self.write_offset;
        }
    }

    /// Encodes `record` and writes it at the write offset, which then moves past it.
    pub fn write_record(&mut self, record: &Record) -> (r: Result<u32, Error>)
        requires
            old(self).wf(),
            encodable(record@),
            encoded_len(record@) <= u32::MAX,
            old(self).write_offset + encoded_len(record@) <= usize::MAX,
        ensures
            r matches Ok(n) && n == encoded_len(record@),
            final(self).wf(),
            final(self).content() == old(self).content().subrange(0, old(self).write_offset as int)
                + record_bytes(record@),
            final(self).write_offset == old(self).write_offset + encoded_len(record@),
            final(self).id == old(self).id,
            final(self).path() == old(self).path(),
    {
        let encoded = record.encode();
        self.truncate_to_offset();
        put_slice(&mut self.data, encoded.as_slice());
        let n = encoded.len();
        self.write_offset = self.write_offset + n as u64;
        Ok(n as u32)
    }

    /// Reads the record at `offset`, whose extent its length prefix gives.
    pub fn read_record(&self, offset: u64) -> (r: Result<RecordReader, Error>)
        ensures
            match r {
                Ok(rd) => {
                    &&& rd.wf()
                    &&& read_at_spec(self.content(), offset as int) == Some(rd@)
                    &&& rd.bytes().len() == size_at(self.content(), offset as int)
                },
                Err(e) => e == Error::Corrupt && read_at_spec(self.content(), offset as int) is None,
            },
    {
        RecordReader::decode(self.data.as_slice(), offset)
    }

    /// Reads the record of `size` bytes at `offset`.
    pub fn read_record_with_size(&self, offset: u64, size: u64) -> (r: Result<RecordReader, Error>)
        ensures
            match r {
                Ok(rd) => {
                    &&& rd.wf()
                    &&& offset + size <= self.content().len()
                    &&& decode_spec(self.content().subrange(offset as int, offset + size)) == Some(
                        rd@,
                    )
                    &&& rd.bytes() == self.content().subrange(offset as int, offset + size)
                },
                Err(e) => e == Error::Corrupt && (offset + size > self.content().len()
                    || decode_spec(self.content().subrange(offset as int, offset + size)) is None),
            },
    {
        let len = self.data.len();
        if offset > len as u64 || size > len as u64 - offset {
            return Err(Error::Corrupt);
        }
        let start = offset as usize;
        let buf = slice_to_vec(slice_subrange(self.data.as_slice(), start, start + size as usize));
        RecordReader::decode_from_vec(buf)
    }
}

} // verus!
