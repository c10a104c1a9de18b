use vstd::prelude::*;
use vstd::pervasive::VecAdditionalExecFns;
use vstd::slice::slice_to_vec;

use crate::error::Error;
use crate::key::check_key_valid;
use crate::log_record::{
    encodable, encoded_len, BatchState, Record, RecordPosition, RecordType, RecordView,
};
use crate::options::WriteBatchOptions;
use crate::storage::{
    lemma_extend_refl, lemma_extend_trans, lemma_kv_kept, lemma_lookup_kept, lemma_record_kept,
    Bitcask,
};

verus! {

/// What applying a record does to a key-value map.
pub open spec fn apply_record(m: Map<Seq<u8>, Seq<u8>>, r: RecordView) -> Map<Seq<u8>, Seq<u8>> {
    if r.record_type == RecordType::Normal {
        m.insert(r.key, r.value)
    } else {
        m.remove(r.key)
    }
}

/// Applies records in order.
pub open spec fn apply_all(m: Map<Seq<u8>, Seq<u8>>, rs: Seq<RecordView>) -> Map<
    Seq<u8>,
    Seq<u8>,
>
    decreases rs.len(),
{
    if rs.len() == 0 {
        m
    } else {
        apply_record(apply_all(m, rs.drop_last()), rs.last())
    }
}

/// A record as a batch of sequence `seq` writes it.
pub open spec fn in_batch(r: RecordView, seq: u64) -> RecordView {
    RecordView { batch_state: BatchState::Enable(seq), ..r }
}

/// Some position of `b` holds `r`.
pub open spec fn holds_record(b: &Bitcask, r: RecordView) -> bool {
    exists|p: RecordPosition| #[trigger] b.record_at(p) == Some(r)
}

/// The closing record of batch `seq`.
pub open spec fn finish_view(seq: u64) -> RecordView {
    RecordView {
        record_type: RecordType::Normal,
        batch_state: BatchState::Finish(seq),
        key: crate::log_record::batch_finish_key(),
        value: Seq::empty(),
    }
}

/// The lengths of the records a commit of `pv` under `seq` appends, closing record last.
pub open spec fn batch_lens(pv: Seq<RecordView>, seq: u64) -> Seq<nat> {
    pv.map_values(|r: RecordView| encoded_len(in_batch(r, seq))).push(encoded_len(finish_view(seq)))
}

/// Records of lengths `lens` can be appended one after another to an active file of
/// id `id` written up to `wo`, rotating as `append_record` does.
pub open spec fn appends_fit(wo: nat, id: nat, max: nat, lens: Seq<nat>) -> bool
    decreases lens.len(),
{
    if lens.len() == 0 {
        true
    } else {
        let len = lens[0];
        let rotate = wo + len > max;
        &&& len <= u32::MAX
        &&& rotate ==> id < u32::MAX
        &&& !rotate ==> wo + len <= usize::MAX
        &&& appends_fit(if rotate { len } else { wo + len }, if rotate { (id + 1) as nat } else { id }, max, lens.drop_first())
    }
}

/// Writes buffered so that they reach the log and the index together.
pub struct BatchWrite {
    pub pending: Vec<Record>,
    pub opts: WriteBatchOptions,
}

impl BatchWrite {
    /// The buffered records, one per key, in the order their keys were first written.
    pub open spec fn pending_view(&self) -> Seq<RecordView> {
        self.pending@.map_values(|r: Record| r@)
    }

    /// The buffered record of `k`, if any.
    pub open spec fn pending_of(&self, k: Seq<u8>) -> Option<RecordView> {
        if exists|i: int| 0 <= i < self.pending@.len() && #[trigger] self.pending@[i]@.key == k {
            let i = choose|i: int| 0 <= i < self.pending@.len() && #[trigger] self.pending@[i]@.key == k;
            Some(self.pending@[i]@)
        } else {
            None
        }
    }

    pub open spec fn wf(&self) -> bool {
        forall|i: int, j: int|
            0 <= i < self.pending@.len() && 0 <= j < self.pending@.len() ==> {
                &&& #[trigger] self.pending@[i]@.key.len() > 0
                &&& self.pending@[i]@.key.len() + self.pending@[i]@.value.len() + 30 <= u32::MAX
                &&& self.pending@[i]@.batch_state == BatchState::Disable
                &&& (i != j ==> self.pending@[i]@.key != #[trigger] self.pending@[j]@.key)
            }
    }

    /// The index in `pending` of the record for `key`.
    fn find(&self, key: &Vec<u8>) -> (r: Option<usize>)
        ensures
            match r {
                Some(i) => i < self.pending@.len() && self.pending@[i as int]@.key == key@,
                None => forall|i: int|
                    0 <= i < self.pending@.len() ==> #[trigger] self.pending@[i]@.key != key@,
            },
    {
        let mut i: usize = 0;
        while i < self.pending.len()
            invariant
                i <= self.pending@.len(),
                forall|j: int| 0 <= j < i ==> #[trigger] self.pending@[j]@.key != key@,
            decreases self.pending@.len() - i,
        {
            if bytes_eq(&self.pending[i].key, key) {
                return Some(i);
            }
            i = i + 1;
        }
        None
    }

    /// Buffers `record` in place of any earlier one of its key.
    fn buffer(&mut self, record: Record)
        requires
            old(self).wf(),
            record@.key.len() > 0,
            record@.key.len() + record@.value.len() + 30 <= u32::MAX,
            record@.batch_state == BatchState::Disable,
        ensures
            final(self).wf(),
            final(self).opts == old(self).opts,
            final(self).pending_of(record@.key) == Some(record@),
            forall|k: Seq<u8>| k != record@.key ==> #[trigger] final(self).pending_of(k) == old(
                self,
            ).pending_of(k),
    {
        let ghost k = record@.key;
        match self.find(&record.key) {
            Some(i) => {
                self.pending.set(i, record);
                proof {
                    assert(self.pending@[i as int]@.key == k);
                    assert forall|k2: Seq<u8>| k2 != k implies #[trigger] self.pending_of(k2)
                        == old(self).pending_of(k2) by {
                        if exists|j: int| 0 <= j < self.pending@.len() && #[trigger] self.pending@[j]@.key == k2 {
                            let j = choose|j: int| 0 <= j < self.pending@.len() && #[trigger] self.pending@[j]@.key == k2;
                            assert(old(self).pending@[j]@.key == k2);
                        }
                        if exists|j: int| 0 <= j < old(self).pending@.len() && #[trigger] old(self).pending@[j]@.key == k2 {
                            let j = choose|j: int| 0 <= j < old(self).pending@.len() && #[trigger] old(self).pending@[j]@.key == k2;
                            assert(self.pending@[j]@.key == k2);
                        }
                    }
                }
            },
            None => {
                self.pending.push(record);
                proof {
                    let n = old(self).pending@.len() as int;
                    assert(self.pending@[n]@.key == k);
                    assert forall|k2: Seq<u8>| k2 != k implies #[trigger] self.pending_of(k2)
                        == old(self).pending_of(k2) by {
                        if exists|j: int| 0 <= j < self.pending@.len() && #[trigger] self.pending@[j]@.key == k2 {
                            let j = choose|j: int| 0 <= j < self.pending@.len() && #[trigger] self.pending@[j]@.key == k2;
                            assert(old(self).pending@[j]@.key == k2);
                        }
                        if exists|j: int| 0 <= j < old(self).pending@.len() && #[trigger] old(self).pending@[j]@.key == k2 {
                            let j = choose|j: int| 0 <= j < old(self).pending@.len() && #[trigger] old(self).pending@[j]@.key == k2;
                            assert(self.pending@[j]@.key == k2);
                        }
                    }
                }
            },
        }
    }

    /// Drops the buffered record of `key`.
    fn unbuffer(&mut self, i: usize)
        requires
            old(self).wf(),
            i < old(self).pending@.len(),
        ensures
            final(self).wf(),
            final(self).opts == old(self).opts,
            final(self).pending_of(old(self).pending@[i as int]@.key) is None,
            forall|k: Seq<u8>| k != old(self).pending@[i as int]@.key ==> #[trigger] final(self).pending_of(k) == old(
                self,
            ).pending_of(k),
    {
        let ghost k = self.pending@[i as int]@.key;
        self.pending.remove(i);
        proof {
            assert forall|k2: Seq<u8>| k2 != k implies #[trigger] self.pending_of(k2)
                == old(self).pending_of(k2) by {
                if exists|j: int| 0 <= j < self.pending@.len() && #[trigger] self.pending@[j]@.key == k2 {
                    let j = choose|j: int| 0 <= j < self.pending@.len() && #[trigger] self.pending@[j]@.key == k2;
                    if j < i {
                        assert(old(self).pending@[j]@.key == k2);
                    } else {
                        assert(old(self).pending@[j + 1]@.key == k2);
                    }
                }
                if exists|j: int| 0 <= j < old(self).pending@.len() && #[trigger] old(self).pending@[j]@.key == k2 {
                    let j = choose|j: int| 0 <= j < old(self).pending@.len() && #[trigger] old(self).pending@[j]@.key == k2;
                    if j < i {
                        assert(self.pending@[j]@.key == k2);
                    } else {
                        assert(self.pending@[j - 1]@.key == k2);
                    }
                }
            }
            if exists|j: int| 0 <= j < self.pending@.len() && #[trigger] self.pending@[j]@.key == k {
                let j = choose|j: int| 0 <= j < self.pending@.len() && #[trigger] self.pending@[j]@.key == k;
                if j < i {
                    assert(old(self).pending@[j]@.key == k);
                } else {
                    assert(old(self).pending@[j + 1]@.key == k);
                }
            }
        }
    }

    /// Buffers a write of `value` under `key`.
    pub fn put(&mut self, key: &[u8], value: &[u8]) -> (r: Result<(), Error>)
        requires
            old(self).wf(),
        ensures
            final(self).wf(),
            final(self).opts == old(self).opts,
            key@.len() == 0 ==> r == Err::<(), Error>(Error::EmptyKey) && final(self).pending@ == old(self).pending@,
            key@.len() > 0 && key@.len() + value@.len() + 30 > u32::MAX ==> r == Err::<(), Error>(Error::IO)
                && final(self).pending@ == old(self).pending@,
            r is Ok <==> key@.len() > 0 && key@.len() + value@.len() + 30 <= u32::MAX,
            r is Ok ==> final(self).pending_of(key@) == Some(
                RecordView {
                    record_type: RecordType::Normal,
                    batch_state: BatchState::Disable,
                    key: key@,
                    value: value@,
                },
            ) && forall|k: Seq<u8>| k != key@ ==> #[trigger] final(self).pending_of(k) == old(
                self,
            ).pending_of(k),
    {
        let key = slice_to_vec(key);
        let value = slice_to_vec(value);
        if let Err(e) = check_key_valid(&key) {
            return Err(e);
        }
        if key.len() as u128 + value.len() as u128 + 30 > u32::MAX as u128 {
            return Err(Error::IO);
        }
        self.buffer(Record::normal(key, value));
        Ok(())
    }

    /// Buffers a deletion of `key`. A key the store does not index whose only write is
    /// buffered loses that write instead.
    pub fn delete(&mut self, storage: &Bitcask, key: &[u8]) -> (r: Result<(), Error>)
        requires
            old(self).wf(),
            storage.wf(),
        ensures
            final(self).wf(),
            final(self).opts == old(self).opts,
            key@.len() == 0 ==> r == Err::<(), Error>(Error::EmptyKey) && final(self).pending@ == old(self).pending@,
            key@.len() > 0 && key@.len() + 30 > u32::MAX ==> r == Err::<(), Error>(Error::IO)
                && final(self).pending@ == old(self).pending@,
            r is Ok <==> key@.len() > 0 && key@.len() + 30 <= u32::MAX,
            r is Ok ==> final(self).pending_of(key@) == (if storage.index_entry(key@) is None
                && old(self).pending_of(key@) is Some {
                None
            } else {
                Some(
                    RecordView {
                        record_type: RecordType::Deleted,
                        batch_state: BatchState::Disable,
                        key: key@,
                        value: Seq::empty(),
                    },
                )
            }) && forall|k: Seq<u8>| k != key@ ==> #[trigger] final(self).pending_of(k) == old(
                self,
            ).pending_of(k),
    {
        let key = slice_to_vec(key);
        if let Err(e) = check_key_valid(&key) {
            return Err(e);
        }
        if key.len() as u128 + 30 > u32::MAX as u128 {
            return Err(Error::IO);
        }
        let s = storage.get_index(key.as_slice());
        let indexed = storage.indexs[s].exits(key.as_slice());
        match self.find(&key) {
            Some(i) => {
                if !indexed {
                    self.unbuffer(i);
                    return Ok(());
                }
            },
            None => {
                proof {
                    assert(old(self).pending_of(key@) is None);
                }
            },
        }
        let record = Record::deleted(key);
        proof {
            assert(record@.value =~= Seq::<u8>::empty());
        }
        self.buffer(record);
        Ok(())
    }
}

impl Bitcask {
    /// A new, empty batch.
    pub fn new_batch_write(&self, opts: WriteBatchOptions) -> (r: Result<BatchWrite, Error>)
        ensures
            r matches Ok(b) && b.wf() && b.pending@.len() == 0 && b.opts == opts,
    {
        Ok(BatchWrite { pending: Vec::new(), opts })
    }
}

impl BatchWrite {
    /// Writes every buffered record under the next batch sequence, then the batch's
    /// closing record, then applies them all to the index. The buffer is emptied.
    pub fn commit(&mut self, storage: &mut Bitcask) -> (r: Result<(), Error>)
        requires
            old(self).wf(),
            old(storage).wf(),
        ensures
            final(self).wf(),
            final(self).pending@.len() == 0,
            final(storage).wf(),
            old(self).pending@.len() == 0 ==> r is Ok,
            r == Err::<(), Error>(Error::BatchTooLarge) <==> old(self).pending@.len()
                > old(self).opts.max_batch_size,
            r is Ok ==> final(storage).kv() == apply_all(old(storage).kv(), old(self).pending_view()),
            r is Err ==> final(storage).kv() == old(storage).kv(),
            r matches Err(e) ==> (e == Error::BatchTooLarge || e == Error::IO),
            old(self).pending@.len() == 0 || old(self).pending@.len() > old(self).opts.max_batch_size
                ==> *final(storage) == *old(storage),
            r is Ok && old(self).pending@.len() > 0 ==> old(storage).batch_seq < u64::MAX
                && final(storage).batch_seq == old(storage).batch_seq + 1,
            old(self).pending@.len() <= old(self).opts.max_batch_size && old(storage).batch_seq < u64::MAX
                && appends_fit(
                old(storage).active_file.write_offset as nat,
                old(storage).active_file.id as nat,
                old(storage).opts.max_file_size as nat,
                batch_lens(old(self).pending_view(), old(storage).batch_seq),
            ) ==> r is Ok,
            r is Ok && old(self).pending@.len() > 0 ==> old(storage).files_extend_to(final(storage))
                && (forall|j: int| 0 <= j < old(self).pending@.len() ==> holds_record(
                    final(storage), in_batch(#[trigger] old(self).pending_view()[j], old(storage).batch_seq)))
                && holds_record(final(storage), finish_view(old(storage).batch_seq)),
    {
        let mut pending: Vec<Record> = Vec::new();
        std::mem::swap(&mut pending, &mut self.pending);
        let ghost pv = pending@.map_values(|r: Record| r@);
        assert(pv == old(self).pending_view());
        if pending.len() == 0 {
            return Ok(());
        }
        if pending.len() > self.opts.max_batch_size {
            return Err(Error::BatchTooLarge);
        }
        if storage.batch_seq == u64::MAX {
            return Err(Error::IO);
        }
        let seq = storage.batch_seq;
        storage.batch_seq = seq + 1;
        proof {
            lemma_extend_refl(old(storage));
            crate::storage::lemma_wf_kept(old(storage), storage);
            lemma_kv_kept(old(storage), storage);
            lemma_extend_refl(storage);
        }
        let ghost start = *storage;
        let ghost lens = batch_lens(pv, seq);
        let ghost max = storage.opts.max_file_size as nat;
        let ghost fits0 = appends_fit(storage.active_file.write_offset as nat, storage.active_file.id as nat, max, lens);
        proof {
            assert(lens.subrange(0, lens.len() as int) =~= lens);
        }
        let mut positions: Vec<RecordPosition> = Vec::new();
        let mut i: usize = 0;
        while i < pending.len()
            invariant
                storage.wf(),
                start.wf(),
                self.wf(),
                self.pending@.len() == 0,
                self.opts == old(self).opts,
                pending@.len() == old(self).pending@.len(),
                0 < pending@.len() <= old(self).opts.max_batch_size,
                i <= pending@.len(),
                pv == pending@.map_values(|r: Record| r@),
                positions@.len() == i,
                storage.indexs == start.indexs,
                storage.opts == start.opts,
                storage.batch_seq == seq + 1,
                seq == old(storage).batch_seq,
                lens == batch_lens(pv, seq),
                pv == old(self).pending_view(),
                fits0 == appends_fit(old(storage).active_file.write_offset as nat, old(storage).active_file.id as nat,
                    old(storage).opts.max_file_size as nat, batch_lens(old(self).pending_view(), old(storage).batch_seq)),
                lens.len() == pending@.len() + 1,
                max == storage.opts.max_file_size,
                fits0 ==> appends_fit(storage.active_file.write_offset as nat, storage.active_file.id as nat, max,
                    lens.subrange(i as int, lens.len() as int)),
                old(storage).files_extend_to(&start),
                start.files_extend_to(storage),
                start.kv() == old(storage).kv(),
                forall|a: int, b: int|
                    0 <= a < pending@.len() && 0 <= b < pending@.len() ==> {
                        &&& #[trigger] pending@[a]@.key.len() > 0
                        &&& pending@[a]@.key.len() + pending@[a]@.value.len() + 30 <= u32::MAX
                        &&& (a != b ==> pending@[a]@.key != #[trigger] pending@[b]@.key)
                    },
                forall|j: int|
                    0 <= j < i ==> storage.record_at(#[trigger] positions@[j]) == Some(
                        in_batch(pending@[j]@, seq),
                    ),
            decreases pending@.len() - i,
        {
            let rec = Record {
                record_type: pending[i].record_type,
                key: slice_to_vec(pending[i].key.as_slice()),
                value: slice_to_vec(pending[i].value.as_slice()),
                batch_state: BatchState::Enable(seq),
            };
            assert(rec@ == in_batch(pending@[i as int]@, seq));
            let ghost before = *storage;
            proof {
                let t = lens.subrange(i as int, lens.len() as int);
                assert(pv[i as int] == pending@[i as int]@);
                assert(lens[i as int] == encoded_len(in_batch(pv[i as int], seq)));
                assert(t[0] == encoded_len(rec@));
                assert(t.drop_first() =~= lens.subrange(i + 1, lens.len() as int));
                if fits0 {
                    assert(appends_fit(storage.active_file.write_offset as nat, storage.active_file.id as nat, max, t));
                    assert(storage.can_append(encoded_len(rec@)));
                }
            }
            let pos = match storage.append_record(&rec) {
                Ok(p) => p,
                Err(e) => {
                    proof {
                        lemma_extend_trans(&start, &before, storage);
                        lemma_kv_kept(&start, storage);
                    }
                    return Err(e);
                },
            };
            proof {
                lemma_extend_trans(&start, &before, storage);
                assert forall|j: int| 0 <= j < i implies storage.record_at(#[trigger] positions@[j])
                    == Some(in_batch(pending@[j]@, seq)) by {
                    lemma_record_kept(&before, storage, positions@[j]);
                }
            }
            positions.push(pos);
            i = i + 1;
        }
        let fin = Record::batch_finished(seq);
        let ghost before = *storage;
        proof {
            let t = lens.subrange(i as int, lens.len() as int);
            assert(fin@ == finish_view(seq));
            assert(lens[pending@.len() as int] == encoded_len(finish_view(seq)));
            assert(t[0] == encoded_len(fin@));
            if fits0 {
                assert(appends_fit(storage.active_file.write_offset as nat, storage.active_file.id as nat, max, t));
                assert(storage.can_append(encoded_len(fin@)));
            }
        }
        let fin_pos = match storage.append_record(&fin) {
            Ok(p) => p,
            Err(e) => {
                proof {
                    lemma_extend_trans(&start, &before, storage);
                    lemma_kv_kept(&start, storage);
                }
                return Err(e);
            },
        };
        proof {
            lemma_extend_trans(&start, &before, storage);
            assert forall|j: int| 0 <= j < i implies storage.record_at(#[trigger] positions@[j])
                == Some(in_batch(pending@[j]@, seq)) by {
                lemma_record_kept(&before, storage, positions@[j]);
            }
        }
        if self.opts.write_sync {
            let ghost before = *storage;
            let _ = storage.sync();
            proof {
                lemma_record_kept(&before, storage, fin_pos);
                lemma_extend_trans(&start, &before, storage);
                assert forall|j: int| 0 <= j < i implies storage.record_at(#[trigger] positions@[j])
                    == Some(in_batch(pending@[j]@, seq)) by {
                    lemma_record_kept(&before, storage, positions@[j]);
                }
            }
        }
        let ghost grown = *storage;
        proof {
            lemma_kv_kept(&start, storage);
            lemma_extend_trans(old(storage), &start, storage);
            assert(pv.take(0) =~= Seq::<RecordView>::empty());
        }
        let mut j: usize = 0;
        while j < pending.len()
            invariant
                storage.wf(),
                self.wf(),
                self.pending@.len() == 0,
                storage.batch_seq == seq + 1,
                seq == old(storage).batch_seq,
                j <= pending@.len(),
                positions@.len() == pending@.len(),
                pv == pending@.map_values(|r: Record| r@),
                storage.kv() == apply_all(old(storage).kv(), pv.take(j as int)),
                storage.record_at(fin_pos) == Some(finish_view(seq)),
                forall|id: u32| #[trigger] storage.file_bytes(id) == grown.file_bytes(id),
                forall|a: int|
                    0 <= a < pending@.len() ==> #[trigger] pending@[a]@.key.len() > 0,
                forall|a: int|
                    0 <= a < pending@.len() ==> storage.record_at(#[trigger] positions@[a]) == Some(
                        in_batch(pending@[a]@, seq),
                    ),
            decreases pending@.len() - j,
        {
            let ghost before = *storage;
            let _ = storage.update_index(&pending[j], positions[j]);
            proof {
                let r = pending@[j as int]@;
                lemma_apply_step(&before, storage, r, positions@[j as int], seq);
                assert(forall|id: u32| #[trigger] storage.file_bytes(id) == before.file_bytes(id));
                assert(pv.take(j + 1).drop_last() =~= pv.take(j as int));
                assert(pv.take(j + 1).last() == r);
            }
            j = j + 1;
        }
        proof {
            assert(pv.take(j as int) =~= pv);
            lemma_extend_refl(storage);
            assert(grown.files_extend_to(storage));
            lemma_extend_trans(old(storage), &grown, storage);
            assert(holds_record(storage, finish_view(seq)));
            assert forall|a: int| 0 <= a < old(self).pending@.len() implies holds_record(
                storage, in_batch(#[trigger] old(self).pending_view()[a], seq)) by {
                assert(storage.record_at(positions@[a]) == Some(in_batch(pending@[a]@, seq)));
                assert(pv[a] == pending@[a]@);
            }
        }
        Ok(())
    }
}

/// Pointing a key at its batched record, or removing it for a tombstone, applies the
/// record to the store's map.
pub proof fn lemma_apply_step(a: &Bitcask, b: &Bitcask, r: RecordView, pos: RecordPosition, seq: u64)
    requires
        a.wf(),
        b.wf(),
        b.same_files(a),
        a.index_differs_at(b, r.key),
        a.record_at(pos) == Some(in_batch(r, seq)),
        b.index_entry(r.key) == (if r.record_type == RecordType::Normal {
            Some(pos)
        } else {
            None
        }),
    ensures
        b.kv() == apply_record(a.kv(), r),
        forall|p: RecordPosition| #[trigger] b.record_at(p) == a.record_at(p),
{
    lemma_extend_refl(a);
    assert(forall|id: u32| #[trigger] b.file_bytes(id) == a.file_bytes(id));
    assert(a.files_extend_to(b));
    lemma_lookup_kept(a, b, r.key);
    assert(b.kv() =~= apply_record(a.kv(), r));
}

/// Whether two byte strings are equal.
pub fn bytes_eq(a: &Vec<u8>, b: &Vec<u8>) -> (r: bool)
    ensures
        r == (a@ == b@),
{
    if a.len() != b.len() {
        return false;
    }
    let mut i: usize = 0;
    while i < a.len()
        invariant
            i <= a@.len() == b@.len(),
            forall|j: int| 0 <= j < i ==> a@[j] == b@[j],
        decreases a@.len() - i,
    {
        if a[i] != b[i] {
            return false;
        }
        i = i + 1;
    }
    assert(a@ =~= b@);
    true
}

} // verus!
