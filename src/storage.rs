use vstd::prelude::*;
use vstd::slice::{slice_subrange, slice_to_vec};
use std::collections::HashMap;

use crate::datafile::DataFile;
use crate::error::Error;
use crate::key::check_key_valid;
use crate::log_record::{
    decode_spec, encodable, encoded_len, lemma_record_round_trip, read_at_spec, record_bytes,
    size_at, crc32_of, BatchState,
    Record, RecordPosition, RecordReader, RecordType, RecordView,
};
use crate::options::{check_options, options_valid, BitcaskOptions};
use crate::utils::get_data_file_path;
use crate::endian::{u32_of_be, u64_of_be};
use crate::batch_write::apply_record;
use crate::key::versioned_key;
use crate::skip_list::versions;
use crate::transaction::{Transaction, TxnSearchType};
use crate::skip_list::SkipList;

verus! {

broadcast use vstd::std_specs::hash::group_hash_axioms;

/// Counters that describe a store.
#[derive(Clone, Copy, Debug)]
pub struct BitcaskState {
    pub data_file_num: u32,
    pub key_num: u32,
    pub reclaimable_size: usize,
    pub disk_used: usize,
}

/// A Bitcask store: an append-only log split into data files, and an in-memory index
/// from each key to the position of its latest record.
pub struct Bitcask {
    pub opts: BitcaskOptions,
    pub indexs: Vec<SkipList>,
    pub active_file: DataFile,
    pub old_files: HashMap<u32, DataFile>,
    pub batch_seq: u64,
    pub bytes_written: u64,
    pub reclaimable: u64,
}

/// `b` starts with `a`.
pub open spec fn is_prefix(a: Seq<u8>, b: Seq<u8>) -> bool {
    a.len() <= b.len() && b.subrange(0, a.len() as int) == a
}

/// The record found at `p` in a file holding `c`.
pub open spec fn record_in(c: Seq<u8>, p: RecordPosition) -> Option<RecordView> {
    if p.offset + p.size <= c.len() {
        decode_spec(c.subrange(p.offset as int, p.offset + p.size))
    } else {
        None
    }
}

/// What a record at a position says of its key's value: a normal record gives its
/// value, a tombstone none.
pub open spec fn value_of(r: Option<RecordView>) -> Option<Seq<u8>> {
    match r {
        Some(rv) => if rv.record_type == RecordType::Normal {
            Some(rv.value)
        } else {
            None
        },
        None => None,
    }
}

impl Bitcask {
    pub open spec fn shard_count(&self) -> int {
        self.opts.index_num as int
    }

    pub open spec fn shard_of(&self, k: Seq<u8>) -> int {
        (k[0] as int) % self.shard_count()
    }

    /// The position the index holds for `k`.
    pub open spec fn index_entry(&self, k: Seq<u8>) -> Option<RecordPosition> {
        if k.len() > 0 && self.shard_count() > 0 && self.indexs@.len() == self.shard_count() {
            let m = self.indexs@[self.shard_of(k)]@;
            if m.contains_key(k) {
                Some(m[k])
            } else {
                None
            }
        } else {
            None
        }
    }

    /// The written bytes of the file with this id: of the active file, those before
    /// its write offset.
    pub open spec fn file_bytes(&self, id: u32) -> Option<Seq<u8>> {
        if id == self.active_file.id {
            Some(self.active_file.content().subrange(0, self.active_file.write_offset as int))
        } else if self.old_files@.contains_key(id) {
            Some(self.old_files@[id].content())
        } else {
            None
        }
    }

    /// The record stored at `p`.
    pub open spec fn record_at(&self, p: RecordPosition) -> Option<RecordView> {
        match self.file_bytes(p.file_id) {
            Some(c) => record_in(c, p),
            None => None,
        }
    }

    /// A record of key `k` lies at `p`.
    pub open spec fn holds_key(&self, p: RecordPosition, k: Seq<u8>) -> bool {
        match self.record_at(p) {
            Some(r) => r.key == k,
            None => false,
        }
    }

    /// The value a read of `k` gives.
    pub open spec fn lookup(&self, k: Seq<u8>) -> Option<Seq<u8>> {
        match self.index_entry(k) {
            Some(p) => value_of(self.record_at(p)),
            None => None,
        }
    }

    /// The store as a map from key to value.
    pub open spec fn kv(&self) -> Map<Seq<u8>, Seq<u8>> {
        Map::new(|k: Seq<u8>| self.lookup(k) is Some, |k: Seq<u8>| self.lookup(k)->0)
    }

    /// The files are consistent: ids are unique, archived ids lie below the active one.
    pub open spec fn files_wf(&self) -> bool {
        &&& self.active_file.wf()
        &&& forall|id: u32| #[trigger]
            self.old_files@.contains_key(id) ==> self.old_files@[id].wf() && self.old_files@[id].id
                == id && id < self.active_file.id
    }

    pub open spec fn wf(&self) -> bool {
        &&& self.files_wf()
        &&& self.shard_count() > 0
        &&& self.indexs@.len() == self.shard_count()
        &&& self.opts.max_file_size > 0
        &&& forall|i: int, k: Seq<u8>|
            0 <= i < self.shard_count() && #[trigger] self.indexs@[i]@.contains_key(k) ==> k.len()
                > 0 && (k[0] as int) % self.shard_count() == i
        &&& forall|k: Seq<u8>| #[trigger]
            self.index_entry(k) is Some ==> self.holds_key(self.index_entry(k)->0, k)
    }

    /// Every file of `self` is still in `other`, with its bytes extended at most.
    pub open spec fn files_extend_to(&self, other: &Bitcask) -> bool {
        forall|id: u32| #[trigger]
            self.file_bytes(id) is Some ==> other.file_bytes(id) is Some && is_prefix(
                self.file_bytes(id)->0,
                other.file_bytes(id)->0,
            )
    }

    /// Whether appending a record of `len` bytes is possible: it fits its size field
    /// and the offsets, and a rotation it needs has a next file id.
    pub open spec fn can_append(&self, len: nat) -> bool {
        let rotate = self.active_file.write_offset + len > self.opts.max_file_size;
        &&& len <= u32::MAX
        &&& rotate ==> self.active_file.id < u32::MAX
        &&& !rotate ==> self.active_file.write_offset + len <= usize::MAX
    }
}

/// The length of a normal record for `k` and `v`, unbatched.
pub open spec fn normal_len(k: Seq<u8>, v: Seq<u8>) -> nat {
    22 + k.len() + v.len()
}

impl Bitcask {
    /// Whether a normal record for `k` and `v` can be appended.
    pub open spec fn can_put(&self, k: Seq<u8>, v: Seq<u8>) -> bool {
        self.can_append(normal_len(k, v))
    }

    /// Whether a tombstone for `k` can be appended.
    pub open spec fn can_delete(&self, k: Seq<u8>) -> bool {
        self.can_append(normal_len(k, Seq::empty()))
    }

    /// The same store but for the index and counters.
    pub open spec fn same_files(&self, other: &Bitcask) -> bool {
        &&& self.active_file == other.active_file
        &&& self.old_files@ == other.old_files@
        &&& self.opts == other.opts
    }

    /// The index of `other` differs from this one at `key` alone.
    pub open spec fn index_differs_at(&self, other: &Bitcask, key: Seq<u8>) -> bool {
        forall|k: Seq<u8>| k != key ==> #[trigger] other.index_entry(k) == self.index_entry(k)
    }
}

/// Where the files were only extended and the index changed at one key, every
/// other key reads as before.
pub proof fn lemma_lookup_kept(a: &Bitcask, b: &Bitcask, key: Seq<u8>)
    requires
        a.wf(),
        a.files_extend_to(b),
        a.index_differs_at(b, key),
    ensures
        forall|k: Seq<u8>| k != key ==> #[trigger] b.lookup(k) == a.lookup(k),
{
    assert forall|k: Seq<u8>| k != key implies #[trigger] b.lookup(k) == a.lookup(k) by {
        assert(b.index_entry(k) == a.index_entry(k));
        if a.index_entry(k) is Some {
            lemma_record_kept(a, b, a.index_entry(k)->0);
        }
    }
}

/// The size of the record an entry points at, or zero.
pub open spec fn size_of(e: Option<RecordPosition>) -> nat {
    match e {
        Some(p) => p.size as nat,
        None => 0,
    }
}

/// `a + b`, or `u64::MAX` where that overflows.
pub open spec fn sat_add(a: u64, b: nat) -> u64 {
    if a + b > u64::MAX {
        u64::MAX
    } else {
        (a + b) as u64
    }
}

/// Records stay readable where the files they lie in were only extended.
pub proof fn lemma_record_kept(a: &Bitcask, b: &Bitcask, p: RecordPosition)
    requires
        a.files_extend_to(b),
        a.record_at(p) is Some,
    ensures
        b.record_at(p) == a.record_at(p),
{
    let ca = a.file_bytes(p.file_id)->0;
    let cb = b.file_bytes(p.file_id)->0;
    assert(cb.subrange(p.offset as int, p.offset + p.size) =~= ca.subrange(
        p.offset as int,
        p.offset + p.size,
    ));
}

impl Bitcask {
    /// The shard that holds `key`.
    pub fn get_index(&self, key: &[u8]) -> (r: usize)
        requires
            self.wf(),
            key@.len() > 0,
        ensures
            r == self.shard_of(key@),
            r < self.indexs@.len(),
    {
        (key[0] as usize) % (self.opts.index_num as usize)
    }

    /// Archives the active file and starts the next one.
    pub fn rotate_active(&mut self) -> (r: Result<(), Error>)
        requires
            old(self).wf(),
            old(self).active_file.id < u32::MAX,
        ensures
            final(self).reclaimable == old(self).reclaimable,
            r is Ok,
            final(self).wf(),
            final(self).indexs == old(self).indexs,
            final(self).opts == old(self).opts,
            final(self).batch_seq == old(self).batch_seq,
            final(self).bytes_written == old(self).bytes_written,
            old(self).files_extend_to(final(self)),
            final(self).active_file.id == old(self).active_file.id + 1,
            final(self).active_file.write_offset == 0,
            final(self).old_files@.dom() == old(self).old_files@.dom().insert(old(self).active_file.id),
            final(self).old_files@[old(self).active_file.id].write_offset == old(self).active_file.write_offset,
            final(self).old_files@[old(self).active_file.id].content() == old(self).active_file.content(),
            forall|id: u32| #[trigger] old(self).old_files@.contains_key(id) ==> final(self).old_files@[id] == old(self).old_files@[id],
    {
        let ghost before = *self;
        let _ = self.active_file.sync();
        let next = DataFile::new(self.opts.db_path.as_str(), self.active_file.id + 1);
        let mut prev = match next {
            Ok(f) => f,
            Err(e) => return Err(e),
        };
        std::mem::swap(&mut self.active_file, &mut prev);
        let prev_id = prev.id;
        self.old_files.insert(prev_id, prev);
        proof {
            assert forall|id: u32| #[trigger]
                before.file_bytes(id) is Some implies self.file_bytes(id) is Some && is_prefix(
                    before.file_bytes(id)->0,
                    self.file_bytes(id)->0,
                ) by {
                let a = before.file_bytes(id)->0;
                assert(self.file_bytes(id)->0.subrange(0, a.len() as int) =~= a);
            }
            lemma_wf_kept(&before, self);
            assert(self.old_files@.dom() =~= before.old_files@.dom().insert(before.active_file.id));
        }
        Ok(())
    }

    /// Writes `record` at the active file's write offset.
    fn write_active(&mut self, record: &Record) -> (r: Result<RecordPosition, Error>)
        requires
            old(self).wf(),
            encodable(record@),
            encoded_len(record@) <= u32::MAX,
            old(self).active_file.write_offset + encoded_len(record@) <= usize::MAX,
        ensures
            final(self).reclaimable == old(self).reclaimable,
            final(self).wf(),
            final(self).indexs == old(self).indexs,
            final(self).opts == old(self).opts,
            final(self).batch_seq == old(self).batch_seq,
            final(self).old_files@ == old(self).old_files@,
            final(self).active_file.id == old(self).active_file.id,
            old(self).files_extend_to(final(self)),
            final(self).bytes_written == sat_add(old(self).bytes_written, encoded_len(record@)),
            r matches Ok(pos) && pos.file_id == old(self).active_file.id && pos.offset
                == old(self).active_file.write_offset && pos.size == encoded_len(record@)
                && final(self).record_at(pos) == Some(record@) && final(self).active_file.write_offset
                == pos.offset + pos.size,
    {
        let ghost mid = *self;
        let write_offset = self.active_file.write_offset;
        let written = self.active_file.write_record(record);
        let write_size = match written {
            Ok(n) => n,
            Err(e) => return Err(e),
        };
        let ghost written_state = *self;
        proof {
            lemma_after_write(&mid, &written_state, record@);
        }
        self.bytes_written = self.bytes_written.saturating_add(write_size as u64);
        if self.opts.write_sync {
            let _ = self.active_file.sync();
        }
        let pos = RecordPosition { file_id: self.active_file.id, offset: write_offset, size: write_size };
        proof {
            assert(forall|id: u32| #[trigger] self.file_bytes(id) == written_state.file_bytes(id));
            lemma_extend_refl(&written_state);
            lemma_extend_trans(&mid, &written_state, self);
            lemma_wf_kept(&written_state, self);
        }
        Ok(pos)
    }

    /// Appends `record` to the active file, first rotating it when the record would
    /// take it past the maximum file size.
    pub fn append_record(&mut self, record: &Record) -> (r: Result<RecordPosition, Error>)
        requires
            old(self).wf(),
            encodable(record@),
        ensures
            final(self).reclaimable == old(self).reclaimable,
            final(self).wf(),
            final(self).indexs == old(self).indexs,
            final(self).opts == old(self).opts,
            final(self).batch_seq == old(self).batch_seq,
            old(self).files_extend_to(final(self)),
            r is Ok <==> old(self).can_append(encoded_len(record@)),
            match r {
                Ok(pos) => {
                    &&& final(self).record_at(pos) == Some(record@)
                    &&& pos.size == encoded_len(record@)
                    &&& pos.file_id == final(self).active_file.id
                    &&& final(self).active_file.write_offset == pos.offset + pos.size
                    &&& final(self).bytes_written == sat_add(old(self).bytes_written, pos.size as nat)
                    &&& if old(self).active_file.write_offset + pos.size
                        > old(self).opts.max_file_size {
                        &&& final(self).active_file.id == old(self).active_file.id + 1
                        &&& final(self).old_files@.dom() == old(self).old_files@.dom().insert(
                            old(self).active_file.id,
                        )
                        &&& final(self).old_files@[old(self).active_file.id].write_offset
                            == old(self).active_file.write_offset
                        &&& forall|id: u32| #[trigger] old(self).old_files@.contains_key(id)
                            ==> final(self).old_files@[id] == old(self).old_files@[id]
                        &&& pos.offset == 0
                    } else {
                        &&& final(self).old_files@ == old(self).old_files@
                        &&& final(self).active_file.id == old(self).active_file.id
                        &&& pos.offset == old(self).active_file.write_offset
                    }
                },
                Err(e) => e == Error::IO && *final(self) == *old(self),
            },
    {
        proof {
            lemma_extend_refl(self);
        }
        let record_size = record.get_encode_len();
        if record_size > u32::MAX as usize {
            return Err(Error::IO);
        }
        let rotate = self.active_file.write_offset as u128 + record_size as u128
            > self.opts.max_file_size as u128;
        if rotate {
            if self.active_file.id == u32::MAX {
                return Err(Error::IO);
            }
            let _ = self.rotate_active();
        } else if self.active_file.write_offset as u128 + record_size as u128 > usize::MAX as u128 {
            return Err(Error::IO);
        }
        let ghost mid = *self;
        let r = self.write_active(record);
        proof {
            lemma_extend_trans(old(self), &mid, self);
        }
        r
    }
}

pub proof fn lemma_extend_refl(a: &Bitcask)
    ensures
        a.files_extend_to(a),
{
    assert forall|id: u32| #[trigger] a.file_bytes(id) is Some implies is_prefix(
        a.file_bytes(id)->0,
        a.file_bytes(id)->0,
    ) by {
        assert(a.file_bytes(id)->0.subrange(0, a.file_bytes(id)->0.len() as int) =~= a.file_bytes(id)->0);
    }
}

pub proof fn lemma_extend_trans(a: &Bitcask, b: &Bitcask, c: &Bitcask)
    requires
        a.files_extend_to(b),
        b.files_extend_to(c),
    ensures
        a.files_extend_to(c),
{
    assert forall|id: u32| #[trigger] a.file_bytes(id) is Some implies c.file_bytes(id) is Some
        && is_prefix(a.file_bytes(id)->0, c.file_bytes(id)->0) by {
        let x = a.file_bytes(id)->0;
        let y = b.file_bytes(id)->0;
        let z = c.file_bytes(id)->0;
        assert(z.subrange(0, x.len() as int) =~= y.subrange(0, x.len() as int));
    }
}

/// Growing the active file alone extends the files.
pub proof fn lemma_active_grows(a: &Bitcask, b: &Bitcask)
    requires
        a.old_files@ == b.old_files@,
        a.active_file.id == b.active_file.id,
        is_prefix(a.file_bytes(a.active_file.id)->0, b.file_bytes(a.active_file.id)->0),
    ensures
        a.files_extend_to(b),
{
    assert forall|id: u32| #[trigger] a.file_bytes(id) is Some implies b.file_bytes(id) is Some
        && is_prefix(a.file_bytes(id)->0, b.file_bytes(id)->0) by {
        if id != a.active_file.id {
            let x = a.file_bytes(id)->0;
            assert(b.file_bytes(id)->0.subrange(0, x.len() as int) =~= x);
        }
    }
}

impl Bitcask {
    /// Points `key` at `pos` in its shard, returning the position it replaced, whose
    /// size becomes reclaimable.
    fn index_put(&mut self, key: Vec<u8>, pos: RecordPosition) -> (r: Option<RecordPosition>)
        requires
            old(self).wf(),
            key@.len() > 0,
            old(self).holds_key(pos, key@),
        ensures
            final(self).reclaimable == sat_add(old(self).reclaimable, size_of(old(self).index_entry(key@))),
            final(self).wf(),
            final(self).same_files(old(self)),
            final(self).batch_seq == old(self).batch_seq,
            final(self).index_entry(key@) == Some(pos),
            old(self).index_differs_at(final(self), key@),
            r == old(self).index_entry(key@),
    {
        let ghost k = key@;
        let s = self.get_index(key.as_slice());
        let mut shard = self.indexs.remove(s);
        let prev = shard.put(key, pos);
        self.indexs.insert(s, shard);
        if let Ok(Some(p)) = prev {
            self.reclaimable = self.reclaimable.saturating_add(p.size as u64);
        }
        proof {
            assert(self.indexs@ =~= old(self).indexs@.update(s as int, shard));
            assert forall|k2: Seq<u8>| k2 != k implies #[trigger] self.index_entry(k2)
                == old(self).index_entry(k2) by {}
            assert forall|i: int, k2: Seq<u8>|
                0 <= i < self.shard_count() && #[trigger] self.indexs@[i]@.contains_key(
                    k2,
                ) implies k2.len() > 0 && (k2[0] as int) % self.shard_count() == i by {
                if i == s && k2 != k {
                    assert(old(self).indexs@[i]@.contains_key(k2));
                }
            }
            assert forall|k2: Seq<u8>| #[trigger] self.index_entry(k2) is Some implies self.holds_key(
                self.index_entry(k2)->0,
                k2,
            ) by {
                if k2 != k {
                    assert(old(self).index_entry(k2) is Some);
                }
            }
        }
        match prev {
            Ok(p) => p,
            Err(_) => None,
        }
    }

    /// Removes `key` from its shard, returning its position if it was there; its size
    /// becomes reclaimable.
    fn index_delete(&mut self, key: &[u8]) -> (r: Option<RecordPosition>)
        requires
            old(self).wf(),
            key@.len() > 0,
        ensures
            final(self).reclaimable == sat_add(old(self).reclaimable, size_of(old(self).index_entry(key@))),
            final(self).wf(),
            final(self).same_files(old(self)),
            final(self).batch_seq == old(self).batch_seq,
            final(self).index_entry(key@) is None,
            old(self).index_differs_at(final(self), key@),
            r == old(self).index_entry(key@),
    {
        let ghost k = key@;
        let s = self.get_index(key);
        let mut shard = self.indexs.remove(s);
        let prev = shard.delete(key);
        self.indexs.insert(s, shard);
        if let Ok(p) = prev {
            self.reclaimable = self.reclaimable.saturating_add(p.size as u64);
        }
        proof {
            assert(self.indexs@ =~= old(self).indexs@.update(s as int, shard));
            assert forall|k2: Seq<u8>| k2 != k implies #[trigger] self.index_entry(k2)
                == old(self).index_entry(k2) by {}
            assert forall|i: int, k2: Seq<u8>|
                0 <= i < self.shard_count() && #[trigger] self.indexs@[i]@.contains_key(
                    k2,
                ) implies k2.len() > 0 && (k2[0] as int) % self.shard_count() == i by {
                if i == s {
                    assert(old(self).indexs@[i]@.contains_key(k2));
                }
            }
            assert forall|k2: Seq<u8>| #[trigger] self.index_entry(k2) is Some implies self.holds_key(
                self.index_entry(k2)->0,
                k2,
            ) by {
                assert(old(self).index_entry(k2) is Some);
            }
        }
        match prev {
            Ok(p) => Some(p),
            Err(_) => None,
        }
    }

    /// Reflects a record written at `pos` in the index: a normal record points its key
    /// there, a tombstone removes it. The replaced position counts as reclaimable.
    pub fn update_index(&mut self, record: &Record, pos: RecordPosition) -> (r: Result<(), Error>)
        requires
            old(self).wf(),
            record@.key.len() > 0,
            old(self).holds_key(pos, record@.key),
        ensures
            r is Ok,
            final(self).wf(),
            final(self).same_files(old(self)),
            final(self).batch_seq == old(self).batch_seq,
            final(self).index_entry(record@.key) == (if record@.record_type == RecordType::Normal {
                Some(pos)
            } else {
                None
            }),
            old(self).index_differs_at(final(self), record@.key),
    {
        match record.record_type {
            RecordType::Deleted => {
                self.index_delete(record.key.as_slice());
            },
            RecordType::Normal => {
                self.index_put(record.key.clone(), pos);
            },
        }
        Ok(())
    }

    /// Reads the record at `record_pos`.
    pub fn get_record_with_pos(&self, record_pos: RecordPosition) -> (r: Result<RecordReader, Error>)
        requires
            self.wf(),
        ensures
            r is Ok <==> self.record_at(record_pos) is Some,
            match r {
                Ok(rd) => rd.wf() && self.record_at(record_pos) == Some(rd@),
                Err(e) => e == Error::Corrupt,
            },
    {
        if record_pos.file_id == self.active_file.id {
            if record_pos.offset > self.active_file.write_offset || record_pos.size as u64
                > self.active_file.write_offset - record_pos.offset {
                return Err(Error::Corrupt);
            }
            proof {
                let c = self.active_file.content();
                let w = self.active_file.write_offset as int;
                assert(c.subrange(0, w).subrange(
                    record_pos.offset as int,
                    record_pos.offset + record_pos.size,
                ) =~= c.subrange(record_pos.offset as int, record_pos.offset + record_pos.size));
            }
            self.active_file.read_record_with_size(record_pos.offset, record_pos.size as u64)
        } else {
            match self.old_files.get(&record_pos.file_id) {
                Some(f) => f.read_record_with_size(record_pos.offset, record_pos.size as u64),
                None => Err(Error::Corrupt),
            }
        }
    }

    /// Stores `value` under `key`.
    pub fn put(&mut self, key: &[u8], value: &[u8]) -> (r: Result<(), Error>)
        requires
            old(self).wf(),
        ensures
            r is Ok ==> final(self).reclaimable == sat_add(old(self).reclaimable, size_of(old(self).index_entry(key@))),
            final(self).wf(),
            key@.len() == 0 ==> r == Err::<(), Error>(Error::EmptyKey),
            key@.len() > 0 ==> (r is Ok <==> old(self).can_put(key@, value@)),
            r is Ok ==> final(self).kv() == old(self).kv().insert(key@, value@),
            r is Ok ==> old(self).files_extend_to(final(self)),
            r is Ok ==> (final(self).index_entry(key@) matches Some(p) && p.file_id == final(self).active_file.id
                && p.offset + p.size == final(self).active_file.write_offset
                && final(self).record_at(p) == Some(RecordView {
                    record_type: RecordType::Normal,
                    batch_state: BatchState::Disable,
                    key: key@,
                    value: value@,
                })),
            r == Err::<(), Error>(Error::EmptyKey) ==> key@.len() == 0,
            r is Err ==> final(self).kv() == old(self).kv() && *final(self) == *old(self),
            r matches Err(e) ==> (e == Error::EmptyKey || e == Error::IO),
    {
        let key = slice_to_vec(key);
        let value = slice_to_vec(value);
        if let Err(e) = check_key_valid(&key) {
            return Err(e);
        }
        if key.len() as u128 + value.len() as u128 + 22 > u32::MAX as u128 {
            return Err(Error::IO);
        }
        let record = Record::normal(key, value);
        let pos = match self.append_record(&record) {
            Ok(p) => p,
            Err(e) => {
                proof {
                    lemma_kv_same(old(self), self);
                }
                return Err(e);
            },
        };
        let ghost mid = *self;
        self.index_put(record.key, pos);
        proof {
            lemma_extend_refl(&mid);
            lemma_lookup_kept(old(self), &mid, key@);
            lemma_lookup_kept(&mid, self, key@);
            assert(self.kv() =~= old(self).kv().insert(key@, value@));
            assert(forall|id: u32| #[trigger] self.file_bytes(id) == mid.file_bytes(id));
            assert(self.record_at(pos) == mid.record_at(pos));
            lemma_extend_refl(self);
            assert(mid.files_extend_to(self));
            lemma_extend_trans(old(self), &mid, self);
        }
        Ok(())
    }

    /// The value stored under `key`.
    pub fn get(&self, key: &[u8]) -> (r: Result<Vec<u8>, Error>)
        requires
            self.wf(),
        ensures
            key@.len() == 0 ==> r == Err::<Vec<u8>, Error>(Error::EmptyKey),
            key@.len() > 0 ==> (r is Ok <==> self.kv().contains_key(key@)),
            r matches Ok(v) ==> v@ == self.kv()[key@],
            key@.len() > 0 && r is Err ==> r == Err::<Vec<u8>, Error>(Error::NotFound),
    {
        let key = slice_to_vec(key);
        if let Err(e) = check_key_valid(&key) {
            return Err(e);
        }
        let s = self.get_index(key.as_slice());
        let pos = match self.indexs[s].get(key.as_slice()) {
            Some(p) => p,
            None => return Err(Error::NotFound),
        };
        let record = match self.get_record_with_pos(pos) {
            Ok(rd) => rd,
            Err(e) => return Err(e),
        };
        match record.record_type() {
            RecordType::Deleted => Err(Error::NotFound),
            RecordType::Normal => Ok(slice_to_vec(record.value())),
        }
    }

    /// Removes `key`; removing an absent key does nothing.
    pub fn delete(&mut self, key: &[u8]) -> (r: Result<(), Error>)
        requires
            old(self).wf(),
        ensures
            r is Ok ==> final(self).reclaimable == sat_add(old(self).reclaimable, size_of(old(self).index_entry(key@))),
            final(self).wf(),
            key@.len() == 0 ==> r == Err::<(), Error>(Error::EmptyKey),
            key@.len() > 0 ==> (r is Ok <==> (old(self).index_entry(key@) is None
                || old(self).can_delete(key@))),
            r is Ok ==> final(self).kv() == old(self).kv().remove(key@),
            r is Ok ==> old(self).files_extend_to(final(self)),
            r is Ok && old(self).index_entry(key@) is Some ==> final(self).record_at(RecordPosition {
                file_id: final(self).active_file.id,
                offset: (final(self).active_file.write_offset - normal_len(key@, Seq::empty())) as u64,
                size: normal_len(key@, Seq::empty()) as u32,
            }) == Some(RecordView {
                record_type: RecordType::Deleted,
                batch_state: BatchState::Disable,
                key: key@,
                value: Seq::empty(),
            }),
            r == Err::<(), Error>(Error::EmptyKey) ==> key@.len() == 0,
            r is Ok ==> final(self).index_entry(key@) is None,
            r is Ok ==> old(self).index_differs_at(final(self), key@),
            key@.len() > 0 && old(self).index_entry(key@) is None ==> r is Ok && *final(self) == *old(self),
            r is Err ==> final(self).kv() == old(self).kv() && *final(self) == *old(self),
            r matches Err(e) ==> (e == Error::EmptyKey || e == Error::IO),
    {
        let key = slice_to_vec(key);
        if let Err(e) = check_key_valid(&key) {
            return Err(e);
        }
        let s = self.get_index(key.as_slice());
        if !self.indexs[s].exits(key.as_slice()) {
            assert(self.kv() =~= old(self).kv().remove(key@));
            proof {
                lemma_extend_refl(self);
            }
            return Ok(());
        }
        if key.len() as u128 + 22 > u32::MAX as u128 {
            return Err(Error::IO);
        }
        let record = Record::deleted(key);
        proof {
            assert(record@.value =~= Seq::<u8>::empty());
        }
        let pos = match self.append_record(&record) {
            Ok(p) => p,
            Err(e) => {
                proof {
                    lemma_kv_same(old(self), self);
                }
                return Err(e);
            },
        };
        let ghost mid = *self;
        self.index_delete(record.key.as_slice());
        proof {
            lemma_extend_refl(&mid);
            lemma_lookup_kept(old(self), &mid, key@);
            lemma_lookup_kept(&mid, self, key@);
            assert(self.kv() =~= old(self).kv().remove(key@));
            assert(forall|id: u32| #[trigger] self.file_bytes(id) == mid.file_bytes(id));
            assert(self.record_at(pos) == mid.record_at(pos));
            lemma_extend_refl(self);
            assert(mid.files_extend_to(self));
            lemma_extend_trans(old(self), &mid, self);
        }
        Ok(())
    }

    /// Whether no key is indexed.
    pub fn is_empty(&self) -> (r: bool)
        requires
            self.wf(),
        ensures
            r == forall|k: Seq<u8>| #[trigger] self.index_entry(k) is None,
    {
        let mut i: usize = 0;
        while i < self.indexs.len()
            invariant
                self.wf(),
                i <= self.indexs@.len(),
                forall|j: int| 0 <= j < i ==> #[trigger] self.indexs@[j]@ == crate::skip_list::empty_index(),
            decreases self.indexs@.len() - i,
        {
            if !self.indexs[i].is_empty() {
                proof {
                    let m = self.indexs@[i as int]@;
                    assert(!(m =~= crate::skip_list::empty_index()));
                    let k = choose|k: Seq<u8>| m.contains_key(k);
                    assert(self.index_entry(k) is Some);
                }
                return false;
            }
            i = i + 1;
        }
        proof {
            assert forall|k: Seq<u8>| #[trigger] self.index_entry(k) is None by {
                if k.len() > 0 {
                    let sh = self.shard_of(k);
                    assert(self.indexs@[sh]@ == crate::skip_list::empty_index());
                }
            }
        }
        true
    }
}

impl Bitcask {
    /// Asks that everything written so far be made durable.
    pub fn sync(&mut self) -> (r: Result<(), Error>)
        requires
            old(self).wf(),
        ensures
            r is Ok,
            final(self).wf(),
            final(self).kv() == old(self).kv(),
            final(self).indexs == old(self).indexs,
            final(self).opts == old(self).opts,
            final(self).batch_seq == old(self).batch_seq,
            final(self).old_files@ == old(self).old_files@,
            final(self).active_file.id == old(self).active_file.id,
            final(self).active_file.write_offset == old(self).active_file.write_offset,
            final(self).active_file.content() == old(self).active_file.content(),
            final(self).active_file.synced_len() == final(self).active_file.content().len(),
            old(self).files_extend_to(final(self)),
    {
        let r = self.active_file.sync();
        proof {
            let c = self.file_bytes(self.active_file.id)->0;
            assert(c.subrange(0, c.len() as int) =~= c);
            lemma_active_grows(old(self), self);
            lemma_wf_kept(old(self), self);
            lemma_kv_kept(old(self), self);
        }
        r
    }

    /// Makes everything durable; the directory lock is released by the caller.
    pub fn close(&mut self) -> (r: Result<(), Error>)
        requires
            old(self).wf(),
        ensures
            r is Ok,
            final(self).wf(),
            final(self).kv() == old(self).kv(),
            final(self).active_file.synced_len() == final(self).active_file.content().len(),
            final(self).indexs == old(self).indexs,
            final(self).opts == old(self).opts,
            final(self).old_files@ == old(self).old_files@,
            final(self).active_file.id == old(self).active_file.id,
            final(self).active_file.write_offset == old(self).active_file.write_offset,
            final(self).active_file.content() == old(self).active_file.content(),
            forall|id: u32| #[trigger] final(self).file_bytes(id) == old(self).file_bytes(id),
    {
        self.sync()
    }
}

/// The contents of a store's directory, as read from disk.
pub struct DbFiles {
    /// Each data file's id and bytes, in ascending id order.
    pub data_files: Vec<(u32, Vec<u8>)>,
    /// The hint file's bytes, if there is one.
    pub hint_file: Option<Vec<u8>>,
    /// The merge-finished file's bytes, if there is one.
    pub merge_file: Option<Vec<u8>>,
}

/// Ids in strictly ascending order.
pub open spec fn ids_ascending(files: Seq<(u32, Vec<u8>)>) -> bool {
    forall|i: int, j: int| 0 <= i < j < files.len() ==> files[i].0 < files[j].0
}

/// The bytes of file `id`, or none.
pub open spec fn file_content(b: &Bitcask, id: u32) -> Seq<u8> {
    match b.file_bytes(id) {
        Some(c) => c,
        None => Seq::empty(),
    }
}

/// The records of a file read one after another from offset `o`, each with its offset,
/// up to the first that does not decode.
pub open spec fn records_from(c: Seq<u8>, o: int) -> Seq<(RecordView, int)>
    decreases c.len() - o,
{
    if 0 <= o && read_at_spec(c, o) is Some && size_at(c, o) <= u32::MAX && o + size_at(c, o)
        <= u64::MAX && o + size_at(c, o) <= c.len() && size_at(c, o) > 0 {
        seq![(read_at_spec(c, o)->0, o)] + records_from(c, o + size_at(c, o))
    } else {
        Seq::empty()
    }
}

/// Where the chain of records read from offset `o` ends.
pub open spec fn chain_end(c: Seq<u8>, o: int) -> int
    decreases c.len() - o,
{
    if 0 <= o && read_at_spec(c, o) is Some && size_at(c, o) <= u32::MAX && o + size_at(c, o)
        <= u64::MAX && o + size_at(c, o) <= c.len() && size_at(c, o) > 0 {
        chain_end(c, o + size_at(c, o))
    } else {
        o
    }
}

/// A closing record's sequence lies below `n`, unless it is the largest.
pub open spec fn seq_below(b: BatchState, n: u64) -> bool {
    match b {
        BatchState::Finish(s) => s < n || s == u64::MAX,
        _ => true,
    }
}

/// The position of a replayed record of file `fid`.
pub open spec fn entry_pos(c: Seq<u8>, fid: u32, e: (RecordView, int)) -> RecordPosition {
    RecordPosition { file_id: fid, offset: e.1 as u64, size: size_at(c, e.1) as u32 }
}

/// The state of a replay: the entries it has set or removed, and the records held
/// for each open batch.
pub struct Replay {
    pub applied: Map<Seq<u8>, Option<RecordPosition>>,
    pub pending: Map<u64, Seq<(RecordView, RecordPosition)>>,
}

/// A record applied to the index: a normal record points its key at `p`, a
/// tombstone removes it.
pub open spec fn apply_one(applied: Map<Seq<u8>, Option<RecordPosition>>, r: RecordView, p: RecordPosition) -> Map<
    Seq<u8>,
    Option<RecordPosition>,
> {
    if r.key.len() == 0 {
        applied
    } else {
        applied.insert(r.key, if r.record_type == RecordType::Normal { Some(p) } else { None })
    }
}

/// Records applied in order.
pub open spec fn apply_list(applied: Map<Seq<u8>, Option<RecordPosition>>, l: Seq<(RecordView, RecordPosition)>) -> Map<
    Seq<u8>,
    Option<RecordPosition>,
>
    decreases l.len(),
{
    if l.len() == 0 {
        applied
    } else {
        apply_one(apply_list(applied, l.drop_last()), l.last().0, l.last().1)
    }
}

/// One replayed record: unbatched records apply, batched ones are held, and a batch's
/// closing record applies what its batch holds.
pub open spec fn replay_step(st: Replay, r: RecordView, p: RecordPosition) -> Replay {
    match r.batch_state {
        BatchState::Enable(s) => Replay {
            applied: st.applied,
            pending: st.pending.insert(
                s,
                (if st.pending.contains_key(s) {
                    st.pending[s]
                } else {
                    Seq::empty()
                }).push((r, p)),
            ),
        },
        BatchState::Finish(s) => if st.pending.contains_key(s) {
            Replay { applied: apply_list(st.applied, st.pending[s]), pending: st.pending.remove(s) }
        } else {
            st
        },
        BatchState::Disable => Replay { applied: apply_one(st.applied, r, p), pending: st.pending },
    }
}

/// The replay of the first `n` records of a file's chain, starting with the batches
/// `p0` left open by earlier files.
pub open spec fn replay(chain: Seq<(RecordView, int)>, c: Seq<u8>, fid: u32, n: nat, p0: Map<u64, Seq<(RecordView, RecordPosition)>>) -> Replay
    decreases n,
{
    if n == 0 || n > chain.len() {
        Replay { applied: Map::empty(), pending: p0 }
    } else {
        replay_step(replay(chain, c, fid, (n - 1) as nat, p0), chain[n - 1].0, entry_pos(c, fid, chain[n - 1]))
    }
}

/// The open batches held in `m`, as values.
pub open spec fn batch_view(m: Map<u64, Vec<(Record, RecordPosition)>>) -> Map<u64, Seq<(RecordView, RecordPosition)>> {
    Map::new(|s: u64| m.contains_key(s), |s: u64| m[s]@.map_values(|e: (Record, RecordPosition)| (e.0@, e.1)))
}

/// Every held batched record lies, with its key, where it is held to lie.
pub open spec fn batches_hold(b: &Bitcask, m: Map<u64, Vec<(Record, RecordPosition)>>) -> bool {
    forall|s: u64, j: int|
        #![trigger m[s]@[j]]
        m.contains_key(s) && 0 <= j < m[s]@.len() ==> b.holds_key(m[s]@[j].1, m[s]@[j].0@.key)
}

/// The position a hint record's value encodes.
pub open spec fn hint_pos(v: Seq<u8>) -> RecordPosition {
    RecordPosition {
        file_id: u32_of_be(v.subrange(0, 4)),
        offset: u64_of_be(v.subrange(4, 12)),
        size: u32_of_be(v.subrange(12, 16)),
    }
}

/// The entries the first `n` records of a hint file set: each record whose value
/// encodes a position holding a record of its key points that key there.
pub open spec fn hint_applied(b: &Bitcask, chain: Seq<(RecordView, int)>, n: nat) -> Map<Seq<u8>, Option<RecordPosition>>
    decreases n,
{
    if n == 0 || n > chain.len() {
        Map::empty()
    } else {
        let prev = hint_applied(b, chain, (n - 1) as nat);
        let r = chain[n - 1].0;
        if r.value.len() >= 16 && r.key.len() > 0 && b.holds_key(hint_pos(r.value), r.key) {
            prev.insert(r.key, Some(hint_pos(r.value)))
        } else {
            prev
        }
    }
}

/// The index entry of `k` after a replay over the index of `b`.
pub open spec fn replayed_entry(b: &Bitcask, st: Replay, k: Seq<u8>) -> Option<RecordPosition> {
    if st.applied.contains_key(k) {
        st.applied[k]
    } else {
        b.index_entry(k)
    }
}

/// The entry a map of set or removed entries gives `k` over an empty index.
pub open spec fn over(m: Map<Seq<u8>, Option<RecordPosition>>, k: Seq<u8>) -> Option<RecordPosition> {
    if m.contains_key(k) {
        m[k]
    } else {
        None
    }
}

/// The entries set or removed so far, and the batches still open, after replaying
/// file `id` of `b` over `st`.
pub open spec fn after_file(
    b: &Bitcask,
    st: (Map<Seq<u8>, Option<RecordPosition>>, Map<u64, Seq<(RecordView, RecordPosition)>>),
    id: u32,
) -> (Map<Seq<u8>, Option<RecordPosition>>, Map<u64, Seq<(RecordView, RecordPosition)>>) {
    let c = file_content(b, id);
    let r = replay(records_from(c, 0), c, id, records_from(c, 0).len(), st.1);
    (st.0.union_prefer_right(r.applied), r.pending)
}

/// The state after replaying the files `ids` of `b`, in order, over `st`; open
/// batches carry over from one file to the next.
pub open spec fn after_files(
    b: &Bitcask,
    st: (Map<Seq<u8>, Option<RecordPosition>>, Map<u64, Seq<(RecordView, RecordPosition)>>),
    ids: Seq<u32>,
) -> (Map<Seq<u8>, Option<RecordPosition>>, Map<u64, Seq<(RecordView, RecordPosition)>>)
    decreases ids.len(),
{
    if ids.len() == 0 {
        st
    } else {
        after_file(b, after_files(b, st, ids.drop_last()), ids.last())
    }
}

/// The archived ids a replay scans: those at or above the next unmerged id.
pub open spec fn scan_ids(ids: Seq<u32>, next: Option<u32>) -> Seq<u32>
    decreases ids.len(),
{
    if ids.len() == 0 {
        Seq::empty()
    } else {
        let p = scan_ids(ids.drop_last(), next);
        if next matches Some(n) && ids.last() < n {
            p
        } else {
            p.push(ids.last())
        }
    }
}

/// The ids of all given data files but the last.
pub open spec fn archived_ids(given: Seq<(u32, Vec<u8>)>) -> Seq<u32> {
    if given.len() == 0 {
        Seq::empty()
    } else {
        given.take(given.len() - 1).map_values(|e: (u32, Vec<u8>)| e.0)
    }
}

/// The entries a hint file sets, if there is one.
pub open spec fn hint_map(b: &Bitcask, hint: Option<Vec<u8>>) -> Map<Seq<u8>, Option<RecordPosition>> {
    match hint {
        Some(h) => hint_applied(b, records_from(h@, 0), records_from(h@, 0).len()),
        None => Map::empty(),
    }
}

/// The next unmerged id a merge-finished file records, if any.
pub open spec fn next_of(merge: Option<Vec<u8>>) -> Option<u32> {
    match merge {
        Some(m) => match read_at_spec(m@, 0) {
            Some(rv) => if rv.value.len() >= 4 {
                Some(u32_of_be(rv.value.subrange(0, 4)))
            } else {
                None
            },
            None => None,
        },
        None => None,
    }
}

/// Replaying a file over a store whose entries are `st.0` over an empty index, with
/// open batches `st.1`, leaves `after_file`.
pub proof fn lemma_after_file(
    a: &Bitcask,
    b: &Bitcask,
    fin: &Bitcask,
    st: (Map<Seq<u8>, Option<RecordPosition>>, Map<u64, Seq<(RecordView, RecordPosition)>>),
    id: u32,
)
    requires
        forall|k: Seq<u8>| #[trigger] a.index_entry(k) == over(st.0, k),
        b.same_files(a),
        fin.same_files(a),
        forall|k: Seq<u8>| #[trigger] b.index_entry(k) == replayed_entry(
            a,
            replay(records_from(file_content(a, id), 0), file_content(a, id), id, records_from(file_content(a, id), 0).len(), st.1),
            k,
        ),
    ensures
        forall|k: Seq<u8>| #[trigger] b.index_entry(k) == over(after_file(fin, st, id).0, k),
        after_file(fin, st, id).1 == replay(records_from(file_content(a, id), 0), file_content(a, id), id,
            records_from(file_content(a, id), 0).len(), st.1).pending,
{
    assert(forall|x: u32| #[trigger] file_content(a, x) == file_content(fin, x));
}


impl Bitcask {
    /// Reads the record at `offset` of file `file_id`.
    pub fn get_record_with_offset(&self, file_id: u32, offset: u64) -> (r: Result<RecordReader, Error>)
        requires
            self.wf(),
        ensures
            r matches Ok(rd) ==> (rd.wf() && self.file_bytes(file_id) is Some && rd.bytes().len() > 0
                && offset + rd.bytes().len() <= self.file_bytes(file_id)->0.len()
                && read_at_spec(self.file_bytes(file_id)->0, offset as int) == Some(rd@)
                && rd.bytes().len() == size_at(self.file_bytes(file_id)->0, offset as int)),
            r is Err ==> read_at_spec(file_content(self, file_id), offset as int) is None,
    {
        if file_id == self.active_file.id {
            let len = self.active_file.bytes().len();
            assert(self.active_file.write_offset <= len);
            let wo = self.active_file.write_offset as usize;
            let bytes = slice_subrange(self.active_file.bytes(), 0, wo);
            RecordReader::decode(bytes, offset)
        } else {
            match self.old_files.get(&file_id) {
                Some(f) => f.read_record(offset),
                None => Err(Error::Corrupt),
            }
        }
    }

    /// Applies `record` at `pos` to the index if `pos` does hold a record.
    fn apply_checked(&mut self, record: &Record, pos: RecordPosition)
        requires
            old(self).wf(),
        ensures
            final(self).wf(),
            final(self).same_files(old(self)),
            final(self).batch_seq == old(self).batch_seq,
            old(self).index_differs_at(final(self), record@.key),
            final(self).index_entry(record@.key) == old(self).index_entry(record@.key)
                || final(self).index_entry(record@.key) is None
                || final(self).index_entry(record@.key) == Some(pos),
            old(self).holds_key(pos, record@.key) && record@.key.len() > 0 ==> final(self).index_entry(record@.key)
                == (if record@.record_type == RecordType::Normal { Some(pos) } else { None }),
            final(self).index_entry(record@.key) != old(self).index_entry(record@.key) ==> record@.key.len() > 0
                && final(self).index_entry(record@.key) == (if record@.record_type == RecordType::Normal { Some(pos) } else { None }),
            !old(self).holds_key(pos, record@.key) ==> final(self).indexs == old(self).indexs,
    {
        if record.key.len() == 0 {
            return;
        }
        match self.get_record_with_pos(pos) {
            Ok(rd) => {
                if crate::batch_write::bytes_eq(&slice_to_vec(rd.key()), &record.key) {
                    let _ = self.update_index(record, pos);
                }
            },
            Err(_) => {},
        }
    }

    /// Loads the index from a hint file: each record maps its key to the encoded
    /// position of the key's live record. An entry whose position does not hold a
    /// record of its key is skipped.
    pub fn load_index_from_hint_file(&mut self, hint: &[u8]) -> (r: Result<(), Error>)
        requires
            old(self).wf(),
        ensures
            r is Ok,
            final(self).wf(),
            final(self).same_files(old(self)),
            final(self).batch_seq == old(self).batch_seq,
            forall|k: Seq<u8>| #[trigger] final(self).index_entry(k) == replayed_entry(
                old(self),
                Replay { applied: hint_applied(old(self), records_from(hint@, 0), records_from(hint@, 0).len()), pending: Map::empty() },
                k,
            ),
    {
        let ghost chain = records_from(hint@, 0);
        let ghost mut visited: Seq<(RecordView, int)> = Seq::empty();
        let mut offset: u64 = 0;
        proof {
            assert(chain =~= visited + records_from(hint@, 0));
        }
        loop
            invariant
                self.wf(),
                self.same_files(old(self)),
                self.batch_seq == old(self).batch_seq,
                offset <= hint@.len(),
                chain == records_from(hint@, 0),
                chain == visited + records_from(hint@, offset as int),
                forall|k: Seq<u8>| #[trigger] self.index_entry(k) == replayed_entry(
                    old(self),
                    Replay { applied: hint_applied(old(self), chain, visited.len()), pending: Map::empty() },
                    k,
                ),
            ensures
                chain == visited,
            decreases hint@.len() - offset,
        {
            let record = match RecordReader::decode(hint, offset) {
                Ok(rd) => rd,
                Err(_) => {
                    proof {
                        assert(records_from(hint@, offset as int) =~= Seq::empty());
                        assert(chain =~= visited);
                    }
                    break;
                },
            };
            let size = record.size();
            if size > u32::MAX as usize || size as u64 > u64::MAX - offset {
                proof {
                    assert(records_from(hint@, offset as int) =~= Seq::empty());
                    assert(chain =~= visited);
                }
                break;
            }
            let ghost here = visited.len();
            let ghost prev = *self;
            proof {
                assert(records_from(hint@, offset as int) == seq![(record@, offset as int)] + records_from(
                    hint@,
                    offset + size,
                ));
                assert(chain[here as int] == (record@, offset as int));
                visited = visited.push((record@, offset as int));
                assert(chain =~= visited + records_from(hint@, offset + size));
            }
            let value = record.value();
            if value.len() >= 16 {
                let pos = RecordPosition::decode(value);
                let key = slice_to_vec(record.key());
                let normal = Record::normal(key, Vec::new());
                self.apply_checked(&normal, pos);
                proof {
                    assert(pos == hint_pos(record@.value));
                    assert(old(self).holds_key(pos, record@.key) == prev.holds_key(pos, record@.key));
                    assert forall|k: Seq<u8>| #[trigger] self.index_entry(k) == replayed_entry(
                        old(self),
                        Replay { applied: hint_applied(old(self), chain, visited.len()), pending: Map::empty() },
                        k,
                    ) by {
                        if k != record@.key {
                            assert(prev.index_entry(k) == self.index_entry(k));
                        }
                    }
                }
            }
            offset = offset + size as u64;
        }
        Ok(())
    }

    /// Replays data file `file_id` into the index and returns the offset where its
    /// valid records end. Unbatched records apply at once; batched ones are held
    /// until their batch's closing record, which may come in a later file: `batches`
    /// carries the open batches from file to file.
    pub fn update_index_from_datafile(
        &mut self,
        file_id: u32,
        batches: &mut HashMap<u64, Vec<(Record, RecordPosition)>>,
    ) -> (r: Result<u64, Error>)
        requires
            old(self).wf(),
            batches_hold(old(self), old(batches)@),
        ensures
            batches_hold(final(self), final(batches)@),
            batch_view(final(batches)@) == replay(records_from(file_content(old(self), file_id), 0), file_content(old(self), file_id), file_id,
                records_from(file_content(old(self), file_id), 0).len(), batch_view(old(batches)@)).pending,
            final(self).wf(),
            final(self).same_files(old(self)),
            r == Ok::<u64, Error>(chain_end(file_content(old(self), file_id), 0) as u64),
            forall|k: Seq<u8>| #[trigger] final(self).index_entry(k) == replayed_entry(
                old(self),
                replay(records_from(file_content(old(self), file_id), 0), file_content(old(self), file_id), file_id,
                    records_from(file_content(old(self), file_id), 0).len(), batch_view(old(batches)@)),
                k,
            ),
            final(self).batch_seq >= old(self).batch_seq,
            forall|i: int|
                0 <= i < records_from(file_content(old(self), file_id), 0).len() ==> seq_below(
                    #[trigger] records_from(file_content(old(self), file_id), 0)[i].0.batch_state,
                    final(self).batch_seq,
                ),
    {
        let mut offset: u64 = 0;
        let ghost p0 = batch_view(batches@);
        let mut current_seq = self.batch_seq;
        let ghost c = file_content(self, file_id);
        let ghost chain = records_from(c, 0);
        let ghost mut visited: Seq<(RecordView, int)> = Seq::empty();
        let ghost limit: nat = match self.file_bytes(file_id) {
            Some(c) => c.len(),
            None => 0,
        };
        proof {
            assert(chain =~= visited + records_from(c, 0));
            assert forall|s: u64| #[trigger] batches@.contains_key(s) == replay(chain, c, file_id, 0, p0).pending.contains_key(s) by {}
            assert forall|s: u64| #[trigger] batches@.contains_key(s) implies batches@[s]@.map_values(
                |e: (Record, RecordPosition)| (e.0@, e.1)) == replay(chain, c, file_id, 0, p0).pending[s] by {}
        }
        loop
            invariant
                self.wf(),
                self.same_files(old(self)),
                c == file_content(self, file_id),
                c == file_content(old(self), file_id),
                chain == records_from(c, 0),
                limit == (match self.file_bytes(file_id) {
                    Some(c) => c.len(),
                    None => 0,
                }),
                offset <= limit,
                chain == visited + records_from(c, offset as int),
                chain_end(c, 0) == chain_end(c, offset as int),
                current_seq >= old(self).batch_seq,
                forall|i: int| 0 <= i < visited.len() ==> seq_below(#[trigger] chain[i].0.batch_state, current_seq),
                forall|s: u64| #[trigger] batches@.contains_key(s) == replay(chain, c, file_id, visited.len(), p0).pending.contains_key(s),
                forall|s: u64| #[trigger] batches@.contains_key(s) ==> batches@[s]@.map_values(
                    |e: (Record, RecordPosition)| (e.0@, e.1)) == replay(chain, c, file_id, visited.len(), p0).pending[s],
                forall|s: u64, j: int|
                    #![trigger batches@[s]@[j]]
                    batches@.contains_key(s) && 0 <= j < batches@[s]@.len() ==> self.holds_key(batches@[s]@[j].1, batches@[s]@[j].0@.key),
                forall|k: Seq<u8>| #[trigger] self.index_entry(k) == replayed_entry(old(self), replay(chain, c, file_id, visited.len(), p0), k),
            ensures
                chain == visited,
                chain_end(c, 0) == offset,
            decreases limit - offset,
        {
            let reader = match self.get_record_with_offset(file_id, offset) {
                Ok(rd) => rd,
                Err(_) => {
                    proof {
                        assert(records_from(c, offset as int) =~= Seq::empty());
                        assert(chain =~= visited);
                        assert(chain_end(c, offset as int) == offset);
                    }
                    break;
                },
            };
            let size = reader.size();
            if size > u32::MAX as usize || size as u64 > u64::MAX - offset {
                proof {
                    assert(records_from(c, offset as int) =~= Seq::empty());
                    assert(chain =~= visited);
                    assert(chain_end(c, offset as int) == offset);
                }
                break;
            }
            let pos = RecordPosition { file_id, offset, size: size as u32 };
            let record = reader.to_record();
            let ghost here = visited.len();
            let ghost r0 = replay(chain, c, file_id, here, p0);
            proof {
                assert(records_from(c, offset as int) == seq![(reader@, offset as int)] + records_from(
                    c,
                    offset + size,
                ));
                assert(chain[here as int] == (reader@, offset as int));
                visited = visited.push((reader@, offset as int));
                assert(chain =~= visited + records_from(c, offset + size));
                assert(entry_pos(c, file_id, chain[here as int]) == pos);
                assert(self.holds_key(pos, record@.key));
            }
            match record.batch_state {
                BatchState::Enable(seq) => {
                    let ghost before = batches@;
                    let mut list = match batches.remove(&seq) {
                        Some(l) => l,
                        None => Vec::new(),
                    };
                    let ghost lview = list@;
                    list.push((record, pos));
                    batches.insert(seq, list);
                    proof {
                        let r1 = replay(chain, c, file_id, visited.len(), p0);
                        assert(r1 == replay_step(r0, reader@, pos));
                        assert forall|s: u64| #[trigger] batches@.contains_key(s) == r1.pending.contains_key(s) by {}
                        assert forall|s: u64| #[trigger] batches@.contains_key(s) implies batches@[s]@.map_values(
                            |e: (Record, RecordPosition)| (e.0@, e.1)) == r1.pending[s] by {
                            if s == seq {
                                if before.contains_key(seq) {
                                    assert(lview == before[seq]@);
                                } else {
                                    assert(lview =~= Seq::<(Record, RecordPosition)>::empty());
                                }
                                assert(batches@[s]@.map_values(|e: (Record, RecordPosition)| (e.0@, e.1)) =~= r1.pending[s]);
                            } else {
                                assert(batches@[s] == before[s]);
                            }
                        }
                        assert forall|s: u64, j: int|
                            #![trigger batches@[s]@[j]]
                            batches@.contains_key(s) && 0 <= j < batches@[s]@.len() implies self.holds_key(batches@[s]@[j].1, batches@[s]@[j].0@.key) by {
                            if s == seq && j == batches@[s]@.len() - 1 {
                            } else {
                                assert(before.contains_key(s) && batches@[s]@[j] == before[s]@[j]);
                            }
                        }
                        assert forall|k: Seq<u8>| #[trigger] self.index_entry(k) == replayed_entry(old(self), r1, k) by {}
                    }
                },
                BatchState::Finish(seq) => {
                    let ghost before = batches@;
                    let ghost r1 = replay(chain, c, file_id, visited.len(), p0);
                    proof {
                        assert(r1 == replay_step(r0, reader@, pos));
                    }
                    if let Some(list) = batches.remove(&seq) {
                        let ghost p = r0.pending[seq];
                        let mut i: usize = 0;
                        while i < list.len()
                            invariant
                                self.wf(),
                                self.same_files(old(self)),
                                c == file_content(self, file_id),
                                chain == records_from(c, 0),
                                limit == (match self.file_bytes(file_id) {
                                    Some(c) => c.len(),
                                    None => 0,
                                }),
                                before.contains_key(seq),
                                list@ == before[seq]@,
                                i <= list@.len(),
                                p == r0.pending[seq],
                                list@.map_values(|e: (Record, RecordPosition)| (e.0@, e.1)) == p,
                                chain[here as int].0.batch_state == BatchState::Finish(seq),
                                here < chain.len(),
                                visited.len() == here + 1,
                                forall|j: int|
                                    #![trigger before[seq]@[j]]
                                    0 <= j < before[seq]@.len() ==> self.holds_key(before[seq]@[j].1, before[seq]@[j].0@.key),
                                forall|k: Seq<u8>| #[trigger] self.index_entry(k) == replayed_entry(
                                    old(self),
                                    Replay { applied: apply_list(r0.applied, p.take(i as int)), pending: r0.pending },
                                    k,
                                ),
                            decreases list@.len() - i,
                        {
                            let ghost prev = *self;
                            let ghost e = list@[i as int];
                            proof {
                                assert(before[seq]@[i as int] == e);
                                assert(p[i as int] == (e.0@, e.1));
                            }
                            self.apply_checked(&list[i].0, list[i].1);
                            proof {
                                assert(p.take(i + 1).drop_last() =~= p.take(i as int));
                                assert(p.take(i + 1).last() == (e.0@, e.1));
                                assert forall|k: Seq<u8>| #[trigger] self.index_entry(k) == replayed_entry(
                                    old(self),
                                    Replay { applied: apply_list(r0.applied, p.take(i + 1)), pending: r0.pending },
                                    k,
                                ) by {
                                    if k != e.0@.key {
                                        assert(prev.index_entry(k) == self.index_entry(k));
                                    }
                                }
                            }
                            i = i + 1;
                        }
                        proof {
                            assert(p.take(i as int) =~= p);
                        }
                    } else {
                        proof {
                            assert(!r0.pending.contains_key(seq));
                        }
                    }
                    proof {
                        assert forall|s: u64| #[trigger] batches@.contains_key(s) == r1.pending.contains_key(s) by {}
                        assert forall|s: u64| #[trigger] batches@.contains_key(s) implies batches@[s]@.map_values(
                            |e: (Record, RecordPosition)| (e.0@, e.1)) == r1.pending[s] by {
                            assert(batches@[s] == before[s]);
                        }
                        assert forall|s: u64, j: int|
                            #![trigger batches@[s]@[j]]
                            batches@.contains_key(s) && 0 <= j < batches@[s]@.len() implies self.holds_key(batches@[s]@[j].1, batches@[s]@[j].0@.key) by {
                            assert(before.contains_key(s) && batches@[s]@[j] == before[s]@[j]);
                        }
                        assert forall|k: Seq<u8>| #[trigger] self.index_entry(k) == replayed_entry(old(self), r1, k) by {}
                    }
                    if current_seq <= seq {
                        current_seq = if seq < u64::MAX {
                            seq + 1
                        } else {
                            u64::MAX
                        };
                    }
                },
                BatchState::Disable => {
                    let ghost prev = *self;
                    self.apply_checked(&record, pos);
                    proof {
                        let r1 = replay(chain, c, file_id, visited.len(), p0);
                        assert(r1 == replay_step(r0, reader@, pos));
                        assert(chain[here as int].1 == offset as int);
                        assert forall|s: u64| #[trigger] batches@.contains_key(s) == r1.pending.contains_key(s) by {}
                        assert forall|k: Seq<u8>| #[trigger] self.index_entry(k) == replayed_entry(old(self), r1, k) by {
                            if k != record@.key {
                                assert(prev.index_entry(k) == self.index_entry(k));
                            }
                        }
                    }
                },
            }
            offset = offset + size as u64;
        }
        let ghost pre = *self;
        self.batch_seq = current_seq;
        proof {
            assert(batch_view(batches@) =~= replay(chain, c, file_id, visited.len(), p0).pending);
            lemma_same_files_wf(&pre, self);
            assert(forall|k: Seq<u8>| #[trigger] self.index_entry(k) == pre.index_entry(k));
        }
        Ok(offset)
    }
}

/// Where the chain of well-formed records at the start of `bytes` ends.
pub fn valid_end(bytes: &[u8]) -> (r: u64)
    ensures
        r <= bytes@.len(),
        r == chain_end(bytes@, 0),
        r > 0 ==> read_at_spec(bytes@, 0) is Some,
{
    let mut offset: u64 = 0;
    loop
        invariant
            offset <= bytes@.len(),
            offset > 0 ==> read_at_spec(bytes@, 0) is Some,
            chain_end(bytes@, 0) == chain_end(bytes@, offset as int),
        ensures
            offset <= bytes@.len(),
            offset > 0 ==> read_at_spec(bytes@, 0) is Some,
            chain_end(bytes@, 0) == offset,
        decreases bytes@.len() - offset,
    {
        let rd = match RecordReader::decode(bytes, offset) {
            Ok(rd) => rd,
            Err(_) => break,
        };
        let size = rd.size();
        if size > u32::MAX as usize || size as u64 > u64::MAX - offset {
            break;
        }
        offset = offset + size as u64;
    }
    offset
}

/// The next unmerged file id that a merge-finished file records: the first four
/// bytes, big-endian, of the value of its first record.
pub fn next_unmerged_file_id(merge_file: &[u8]) -> (r: Option<u32>)
    ensures
        r == (match read_at_spec(merge_file@, 0) {
            Some(rv) => if rv.value.len() >= 4 {
                Some(u32_of_be(rv.value.subrange(0, 4)))
            } else {
                None
            },
            None => None,
        }),
{
    match RecordReader::decode(merge_file, 0) {
        Ok(rd) => {
            let v = rd.value();
            if v.len() >= 4 {
                Some(crate::endian::get_u32(v, 0))
            } else {
                None
            }
        },
        Err(_) => None,
    }
}

impl Bitcask {
    /// Opens a store over the files of its directory: the data file of highest id is
    /// the active one, written up to the end of its chain of records, and the index
    /// is rebuilt from the hint file, then from each archived file at or above the
    /// next unmerged id and the active file, in id order.
    pub fn open(opts: BitcaskOptions, files: DbFiles) -> (r: Result<Self, Error>)
        requires
            ids_ascending(files.data_files@),
        ensures
            !options_valid(&opts) || opts.index_num == 0 ==> r == Err::<Self, Error>(
                Error::InvalidOption,
            ),
            options_valid(&opts) && opts.index_num > 0 ==> r is Ok,
            r matches Ok(b) ==> (b.wf() && b.opts == opts),
            r matches Ok(b) ==> (files.data_files@.len() > 0 ==> b.active_file.id == files.data_files@.last().0
                && b.active_file.content() == files.data_files@.last().1@),
            r matches Ok(b) ==> (files.data_files@.len() == 0 ==> b.active_file.id == 0
                && b.active_file.content().len() == 0),
            r matches Ok(b) ==> b.active_file.write_offset == chain_end(b.active_file.content(), 0),
            r matches Ok(b) ==> forall|j: int| 0 <= j < files.data_files@.len() - 1 ==> #[trigger] b.file_bytes(
                files.data_files@[j].0) == Some(files.data_files@[j].1@),
            r matches Ok(b) ==> forall|id: u32| #[trigger] b.old_files@.contains_key(id) ==> exists|j: int|
                0 <= j < files.data_files@.len() - 1 && files.data_files@[j].0 == id,
            r matches Ok(b) ==> forall|k: Seq<u8>| #[trigger] b.index_entry(k) == over(
                after_files(
                    &b,
                    (hint_map(&b, files.hint_file), Map::empty()),
                    scan_ids(archived_ids(files.data_files@), next_of(files.merge_file)).push(b.active_file.id),
                ).0,
                k,
            ),
    {
        if let Err(e) = check_options(&opts) {
            return Err(e);
        }
        if opts.index_num == 0 {
            return Err(Error::InvalidOption);
        }
        let ghost given = files.data_files@;
        let DbFiles { data_files, hint_file, merge_file } = files;
        let (active_file, old_files, ids) = load_files(opts.db_path.as_str(), data_files);
        let indexs = crate::skip_list::new_indexer(opts.index_num);
        let mut bitcask = Bitcask {
            opts,
            indexs,
            active_file,
            old_files,
            batch_seq: 1,
            bytes_written: 0,
            reclaimable: 0,
        };
        proof {
            assert forall|k: Seq<u8>| #[trigger] bitcask.index_entry(k) is None by {}
            assert forall|j: int| 0 <= j < given.len() - 1 implies #[trigger] bitcask.file_bytes(
                given[j].0) == Some(given[j].1@) by {
                assert(given[j].0 < given[given.len() - 1].0);
            }
        }
        bitcask.load_index(&ids, hint_file, merge_file);
        Ok(bitcask)
    }

    /// Rebuilds the index of a store whose index is empty: the hint file first, then
    /// each file of `ids` at or above the next unmerged id, then the active file. A
    /// batch left open at the end of one file stays open into the next.
    fn load_index(&mut self, ids: &Vec<u32>, hint_file: Option<Vec<u8>>, merge_file: Option<Vec<u8>>)
        requires
            old(self).wf(),
            forall|k: Seq<u8>| #[trigger] old(self).index_entry(k) is None,
        ensures
            final(self).wf(),
            final(self).same_files(old(self)),
            forall|k: Seq<u8>| #[trigger] final(self).index_entry(k) == over(
                after_files(
                    final(self),
                    (hint_map(final(self), hint_file), Map::empty()),
                    scan_ids(ids@, next_of(merge_file)).push(final(self).active_file.id),
                ).0,
                k,
            ),
    {
        let ghost start = *self;
        let ghost hint_given = hint_file;
        if let Some(h) = hint_file {
            let _ = self.load_index_from_hint_file(h.as_slice());
        }
        let ghost h0 = hint_map(&start, hint_given);
        let ghost st0 = (h0, Map::<u64, Seq<(RecordView, RecordPosition)>>::empty());
        let next = match merge_file {
            Some(m) => next_unmerged_file_id(m.as_slice()),
            None => None,
        };
        let mut batches: HashMap<u64, Vec<(Record, RecordPosition)>> = HashMap::new();
        proof {
            assert(batch_view(batches@) =~= st0.1);
        }
        let mut i: usize = 0;
        while i < ids.len()
            invariant
                self.wf(),
                self.same_files(&start),
                i <= ids@.len(),
                next == next_of(merge_file),
                st0 == (h0, Map::<u64, Seq<(RecordView, RecordPosition)>>::empty()),
                batches_hold(self, batches@),
                batch_view(batches@) == after_files(&start, st0, scan_ids(ids@.take(i as int), next)).1,
                forall|k: Seq<u8>| #[trigger] self.index_entry(k) == over(
                    after_files(&start, st0, scan_ids(ids@.take(i as int), next)).0,
                    k,
                ),
            decreases ids@.len() - i,
        {
            let id = ids[i];
            let skip = match next {
                Some(n) => id < n,
                None => false,
            };
            let ghost prev = *self;
            let ghost m0 = after_files(&start, st0, scan_ids(ids@.take(i as int), next));
            proof {
                assert(ids@.take(i + 1).drop_last() =~= ids@.take(i as int));
                assert(ids@.take(i + 1).last() == id);
            }
            if !skip {
                let _ = self.update_index_from_datafile(id, &mut batches);
                proof {
                    lemma_after_file(&prev, self, &start, m0, id);
                    assert(scan_ids(ids@.take(i + 1), next) == scan_ids(ids@.take(i as int), next).push(id));
                    assert(scan_ids(ids@.take(i + 1), next).drop_last() =~= scan_ids(ids@.take(i as int), next));
                }
            }
            i = i + 1;
        }
        proof {
            assert(ids@.take(i as int) =~= ids@);
        }
        let active_id = self.active_file.id;
        let ghost prev = *self;
        let ghost m1 = after_files(&start, st0, scan_ids(ids@, next));
        let _ = self.update_index_from_datafile(active_id, &mut batches);
        proof {
            lemma_after_file(&prev, self, &start, m1, active_id);
            let full = scan_ids(ids@, next).push(active_id);
            assert(full.drop_last() =~= scan_ids(ids@, next));
            lemma_after_files_same(&start, self, st0, full);
            lemma_hint_map_same(&start, self, hint_given);
        }
    }
}

/// Splits the given data files: the last becomes the active file, written up to the
/// end of its chain of records; the others are archived by id.
fn load_files(path: &str, data_files: Vec<(u32, Vec<u8>)>) -> (r: (DataFile, HashMap<u32, DataFile>, Vec<u32>))
    requires
        ids_ascending(data_files@),
    ensures
        r.0.wf(),
        r.0.write_offset == chain_end(r.0.content(), 0),
        data_files@.len() > 0 ==> r.0.id == data_files@.last().0 && r.0.content() == data_files@.last().1@,
        data_files@.len() == 0 ==> r.0.id == 0 && r.0.content().len() == 0,
        forall|id: u32| #[trigger]
            r.1@.contains_key(id) ==> r.1@[id].wf() && r.1@[id].id == id && id < r.0.id,
        forall|j: int| 0 <= j < data_files@.len() - 1 ==> r.1@.contains_key(#[trigger] data_files@[j].0)
            && r.1@[data_files@[j].0].content() == data_files@[j].1@,
        r.2@ == archived_ids(data_files@),
        forall|id: u32| #[trigger] r.1@.contains_key(id) ==> exists|j: int| 0 <= j < data_files@.len() - 1
            && data_files@[j].0 == id,
{
    let ghost given = data_files@;
    let mut data_files = data_files;
    let mut active_file = match data_files.pop() {
        Some((id, bytes)) => {
            let path = get_data_file_path(path, id);
            DataFile::from_parts(id, path, bytes)
        },
        None => DataFile::empty_file(path, 0),
    };
    let end = valid_end(active_file.bytes());
    active_file.write_offset = end;
    let mut old_files: HashMap<u32, DataFile> = HashMap::new();
    let mut ids: Vec<u32> = Vec::new();
    let ghost n = given.len() as int;
    proof {
        if n > 0 {
            assert(data_files@ =~= given.take(n - 1));
            assert(ids@ =~= archived_ids(given).subrange(data_files@.len() as int, n - 1));
        }
    }
    while data_files.len() > 0
        invariant
            ids_ascending(given),
            n == given.len(),
            n > 0 ==> data_files@ == given.take(data_files@.len() as int) && data_files@.len() < n,
            n > 0 ==> active_file.id == given[n - 1].0,
            n == 0 ==> data_files@.len() == 0 && ids@.len() == 0,
            ids_ascending(data_files@),
            active_file.wf(),
            forall|i: int| 0 <= i < data_files@.len() ==> #[trigger] data_files@[i].0 < active_file.id,
            forall|id: u32| #[trigger]
                old_files@.contains_key(id) ==> old_files@[id].wf() && old_files@[id].id == id
                    && id < active_file.id && forall|i: int| 0 <= i < data_files@.len() ==> #[trigger] data_files@[i].0 < id,
            n > 0 ==> ids@ == archived_ids(given).subrange(data_files@.len() as int, n - 1),
            forall|j: int| data_files@.len() <= j < n - 1 ==> old_files@.contains_key(#[trigger] given[j].0)
                && old_files@[given[j].0].content() == given[j].1@,
            forall|id: u32| #[trigger] old_files@.contains_key(id) ==> exists|j: int| data_files@.len() <= j < n - 1
                && given[j].0 == id,
        decreases data_files@.len(),
    {
        let ghost before = data_files@;
        let ghost m = before.len() as int;
        let (id, bytes) = data_files.pop().unwrap();
        assert(id == before.last().0);
        let path = get_data_file_path(path, id);
        let f = DataFile::from_parts(id, path, bytes);
        old_files.insert(id, f);
        ids.insert(0, id);
        proof {
            assert(given[m - 1] == before[m - 1]);
            assert(data_files@ =~= given.take(m - 1));
            assert(ids@ =~= archived_ids(given).subrange(m - 1, n - 1));
            assert forall|j: int| m - 1 <= j < n - 1 implies old_files@.contains_key(#[trigger] given[j].0)
                && old_files@[given[j].0].content() == given[j].1@ by {
                if j > m - 1 {
                    assert(given[m - 1].0 < given[j].0);
                }
            }
            assert forall|x: u32| #[trigger] old_files@.contains_key(x) implies exists|j: int| m - 1 <= j < n - 1
                && given[j].0 == x by {
                if x == id {
                    assert(given[m - 1].0 == x);
                }
            }
        }
    }
    proof {
        if n > 0 {
            assert(ids@ =~= archived_ids(given));
        } else {
            assert(ids@ =~= archived_ids(given));
        }
    }
    (active_file, old_files, ids)
}

/// Stores with the same files give the same replays.
pub proof fn lemma_after_files_same(
    a: &Bitcask,
    b: &Bitcask,
    m: (Map<Seq<u8>, Option<RecordPosition>>, Map<u64, Seq<(RecordView, RecordPosition)>>),
    ids: Seq<u32>,
)
    requires
        b.same_files(a),
    ensures
        after_files(a, m, ids) == after_files(b, m, ids),
    decreases ids.len(),
{
    assert(forall|x: u32| #[trigger] file_content(a, x) == file_content(b, x));
    if ids.len() > 0 {
        lemma_after_files_same(a, b, m, ids.drop_last());
    }
}

/// Stores with the same files read a hint file alike.
pub proof fn lemma_hint_map_same(a: &Bitcask, b: &Bitcask, hint: Option<Vec<u8>>)
    requires
        b.same_files(a),
    ensures
        hint_map(a, hint) == hint_map(b, hint),
{
    assert(forall|p: RecordPosition| #[trigger] a.record_at(p) == b.record_at(p));
    if let Some(h) = hint {
        lemma_hint_applied_same(a, b, records_from(h@, 0), records_from(h@, 0).len());
    }
}

pub proof fn lemma_hint_applied_same(a: &Bitcask, b: &Bitcask, chain: Seq<(RecordView, int)>, n: nat)
    requires
        forall|p: RecordPosition| #[trigger] a.record_at(p) == b.record_at(p),
    ensures
        hint_applied(a, chain, n) == hint_applied(b, chain, n),
    decreases n,
{
    if n > 0 && n <= chain.len() {
        lemma_hint_applied_same(a, b, chain, (n - 1) as nat);
        let r = chain[n - 1].0;
        assert(a.holds_key(hint_pos(r.value), r.key) == b.holds_key(hint_pos(r.value), r.key));
    }
}

/// The index and files alone decide well-formedness.
pub proof fn lemma_same_files_wf(a: &Bitcask, b: &Bitcask)
    requires
        b.same_files(a),
        a.indexs == b.indexs || b.wf(),
        a.wf(),
    ensures
        b.wf(),
{
    if a.indexs == b.indexs {
        lemma_extend_refl(a);
        assert(forall|id: u32| #[trigger] b.file_bytes(id) == a.file_bytes(id));
        lemma_wf_kept(a, b);
    }
}

/// Extending the files under an unchanged index keeps every value.
pub proof fn lemma_kv_kept(a: &Bitcask, b: &Bitcask)
    requires
        a.wf(),
        a.files_extend_to(b),
        forall|k: Seq<u8>| #[trigger] b.index_entry(k) == a.index_entry(k),
    ensures
        b.kv() == a.kv(),
{
    assert forall|k: Seq<u8>| #[trigger] b.lookup(k) == a.lookup(k) by {
        if a.index_entry(k) is Some {
            lemma_record_kept(a, b, a.index_entry(k)->0);
        }
    }
    assert(b.kv() =~= a.kv());
}

impl Bitcask {
    /// The timestamps of the versions of `key` the index holds.
    pub open spec fn version_set(&self, key: Seq<u8>) -> Set<u64> {
        Set::new(|t: u64| self.index_entry(versioned_key(key, t)) is Some)
    }

    /// Searches the shard of `key_prefix` for the version `txn` may use.
    pub fn txn_search(&self, key_prefix: &[u8], search_type: TxnSearchType, txn: &Transaction) -> (r:
        Result<(RecordPosition, u64), Error>)
        requires
            self.wf(),
            key_prefix@.len() > 0,
        ensures
            match r {
                Ok((pos, ts)) => {
                    &&& self.version_set(key_prefix@).contains(ts)
                    &&& txn.sees(ts)
                    &&& Some(pos) == self.index_entry(versioned_key(key_prefix@, ts))
                    &&& search_type == TxnSearchType::Read ==> forall|t: u64|
                        #[trigger] self.version_set(key_prefix@).contains(t) && txn.sees(t) ==> t <= ts
                    &&& search_type == TxnSearchType::Write ==> forall|t: u64|
                        #[trigger] self.version_set(key_prefix@).contains(t) ==> t <= ts
                },
                Err(Error::NotFound) => (search_type == TxnSearchType::Read ==> forall|t: u64|
                    #[trigger] self.version_set(key_prefix@).contains(t) ==> !txn.sees(t))
                    && (search_type == TxnSearchType::Write ==> self.version_set(key_prefix@)
                    == Set::<u64>::empty()),
                Err(Error::TxnConflict) => {
                    &&& search_type == TxnSearchType::Write
                    &&& exists|t: u64|
                        #[trigger] self.version_set(key_prefix@).contains(t) && !txn.sees(t)
                            && forall|u: u64| #[trigger]
                                self.version_set(key_prefix@).contains(u) ==> u <= t
                },
                Err(_) => false,
            },
    {
        let s = self.get_index(key_prefix);
        proof {
            assert forall|t: u64| #[trigger] versioned_key(key_prefix@, t)[0] == key_prefix@[0] by {}
            assert(self.version_set(key_prefix@) =~= versions(self.indexs@[s as int]@, key_prefix@));
        }
        self.indexs[s].txn_prefix_search(key_prefix, search_type, txn)
    }

    /// Writes a transaction's versioned record and points its key at it.
    pub fn txn_write(&mut self, record: Record) -> (r: Result<(), Error>)
        requires
            old(self).wf(),
            record@.key.len() > 0,
            record@.batch_state == BatchState::Disable,
            record@.key.len() + record@.value.len() + 22 <= u32::MAX,
        ensures
            final(self).wf(),
            r is Ok <==> old(self).can_append(encoded_len(record@)),
            r is Ok ==> final(self).kv() == apply_record(old(self).kv(), record@),
            r is Ok ==> final(self).index_entry(record@.key) is Some,
            r is Ok ==> forall|k: Seq<u8>| k != record@.key ==> #[trigger] final(self).index_entry(k) == old(self).index_entry(k),
            r is Err ==> final(self).kv() == old(self).kv() && forall|k: Seq<u8>| #[trigger] final(self).index_entry(k) == old(self).index_entry(k),
            r matches Err(e) ==> e == Error::IO,
    {
        let pos = match self.append_record(&record) {
            Ok(p) => p,
            Err(e) => {
                proof {
                    lemma_kv_same(old(self), self);
                }
                return Err(e);
            },
        };
        let ghost mid = *self;
        let ghost k = record@.key;
        self.index_put(record.key, pos);
        proof {
            lemma_extend_refl(&mid);
            lemma_lookup_kept(old(self), &mid, k);
            lemma_lookup_kept(&mid, self, k);
            assert(self.kv() =~= apply_record(old(self).kv(), record@));
        }
        Ok(())
    }
}

/// The bytes at a position that holds a record are exactly that record's encoding:
/// its checksum verifies, and its key and value are those written.
pub proof fn law_position_holds_encoding(b: &Bitcask, p: RecordPosition, r: RecordView)
    requires
        b.record_at(p) == Some(r),
    ensures
        ({
            let bytes = b.file_bytes(p.file_id)->0.subrange(p.offset as int, p.offset + p.size);
            &&& bytes == record_bytes(r)
            &&& u32_of_be(bytes.subrange(bytes.len() - 4, bytes.len() as int)) == crc32_of(
                bytes.subrange(0, bytes.len() - 4),
            )
        }),
{
    let bytes = b.file_bytes(p.file_id)->0.subrange(p.offset as int, p.offset + p.size);
    assert(bytes.len() == p.size);
    crate::log_record::lemma_decode_encodes(bytes);
}

/// An indexed key's position holds a record of that key.
pub proof fn law_index_points_at_key(b: &Bitcask, k: Seq<u8>)
    requires
        b.wf(),
        b.index_entry(k) is Some,
    ensures
        b.record_at(b.index_entry(k)->0) matches Some(r) && r.key == k,
{
}

/// A read after a delete, with no put between, finds nothing.
pub proof fn law_get_after_delete(before: &Bitcask, after: &Bitcask, k: Seq<u8>)
    requires
        after.kv() == before.kv().remove(k),
    ensures
        !after.kv().contains_key(k),
{
}

/// Putting the same value twice leaves what putting it once does.
pub proof fn law_put_idempotent(s0: &Bitcask, s1: &Bitcask, s2: &Bitcask, k: Seq<u8>, v: Seq<u8>)
    requires
        s1.kv() == s0.kv().insert(k, v),
        s2.kv() == s1.kv().insert(k, v),
    ensures
        s2.kv() == s1.kv(),
{
    assert(s2.kv() =~= s1.kv());
}

/// Deleting twice leaves what deleting once does.
pub proof fn law_delete_idempotent(s0: &Bitcask, s1: &Bitcask, s2: &Bitcask, k: Seq<u8>)
    requires
        s1.kv() == s0.kv().remove(k),
        s2.kv() == s1.kv().remove(k),
    ensures
        s2.kv() == s1.kv(),
{
    assert(s2.kv() =~= s1.kv());
}


/// An unchanged store reads the same.
pub proof fn lemma_kv_same(a: &Bitcask, b: &Bitcask)
    requires
        *a == *b,
    ensures
        a.kv() == b.kv(),
{
}

/// Writing a record at the active file's write offset extends the files and puts the
/// record there.
#[verifier::spinoff_prover]
#[verifier::rlimit(30)]
pub proof fn lemma_after_write(a: &Bitcask, b: &Bitcask, record: RecordView)
    requires
        a.wf(),
        b.active_file.wf(),
        b.old_files@ == a.old_files@,
        b.active_file.id == a.active_file.id,
        b.indexs == a.indexs,
        b.opts == a.opts,
        encodable(record),
        b.active_file.content() == a.active_file.content().subrange(
            0,
            a.active_file.write_offset as int,
        ) + record_bytes(record),
        b.active_file.write_offset == a.active_file.write_offset + encoded_len(record),
    ensures
        b.wf(),
        a.files_extend_to(b),
        encoded_len(record) <= u32::MAX ==> b.record_at(
            RecordPosition {
                file_id: a.active_file.id,
                offset: a.active_file.write_offset,
                size: encoded_len(record) as u32,
            },
        ) == Some(record),
{
    lemma_record_round_trip(record);
    let id = a.active_file.id;
    let c = b.file_bytes(id)->0;
    let cm = a.file_bytes(id)->0;
    assert(c =~= cm + record_bytes(record));
    assert(c.subrange(cm.len() as int, (cm.len() + encoded_len(record)) as int) =~= record_bytes(record));
    assert(c.subrange(0, cm.len() as int) =~= cm);
    lemma_active_grows(a, b);
    lemma_wf_kept(a, b);
}

/// Extending files keeps a store well formed.
pub proof fn lemma_wf_kept(a: &Bitcask, b: &Bitcask)
    requires
        a.wf(),
        b.files_wf(),
        a.indexs == b.indexs,
        a.opts == b.opts,
        a.files_extend_to(b),
    ensures
        b.wf(),
{
    assert forall|k: Seq<u8>| #[trigger] b.index_entry(k) is Some implies b.holds_key(
        b.index_entry(k)->0,
        k,
    ) by {
        assert(a.index_entry(k) == b.index_entry(k));
        lemma_record_kept(a, b, a.index_entry(k)->0);
    }
}

} // verus!
