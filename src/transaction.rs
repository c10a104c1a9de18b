use vstd::prelude::*;
use std::collections::HashSet;
use vstd::slice::slice_to_vec;

use crate::batch_write::apply_record;
use crate::error::Error;
use crate::key::{check_key_valid, versioned_key, KeySlice};
use crate::log_record::{BatchState, Record, RecordType, RecordView};
use crate::storage::{normal_len, Bitcask};
use crate::txn_manager::TxnManager;

verus! {

broadcast use vstd::std_specs::hash::group_hash_axioms;

/// Whether a versioned lookup reads or prepares a write.
#[derive(Clone, Copy, PartialEq, Eq, Debug, Structural)]
pub enum TxnSearchType {
    Read,
    Write,
}

/// A snapshot-isolated transaction: its timestamp and the timestamps of the
/// transactions that were active when it began.
pub struct Transaction {
    pub ts: u64,
    pub active_txn_ids: HashSet<u64>,
}

/// A version written at `candidate` is visible to a transaction begun at `ts`
/// while `active` were running.
pub open spec fn visible(ts: u64, active: Set<u64>, candidate: u64) -> bool {
    candidate <= ts && !active.contains(candidate)
}

impl Transaction {
    pub open spec fn sees(&self, candidate: u64) -> bool {
        visible(self.ts, self.active_txn_ids@, candidate)
    }

}

/// The newest version among `vs` that `txn` sees.
pub open spec fn newest_visible(vs: Set<u64>, txn: &Transaction) -> Option<u64> {
    if exists|t: u64| #[trigger] vs.contains(t) && txn.sees(t) {
        Some(
            choose|t: u64|
                #[trigger] vs.contains(t) && txn.sees(t) && forall|u: u64| #[trigger]
                    vs.contains(u) && txn.sees(u) ==> u <= t,
        )
    } else {
        None
    }
}

/// What `txn` reads for `key`: the value of the newest version it sees, if that
/// version is not a deletion.
pub open spec fn txn_value(b: &Bitcask, txn: &Transaction, key: Seq<u8>) -> Option<Seq<u8>> {
    match newest_visible(b.version_set(key), txn) {
        Some(t) => b.lookup(versioned_key(key, t)),
        None => None,
    }
}

/// The newest version of `key` exists and `txn` does not see it.
pub open spec fn conflicts(b: &Bitcask, txn: &Transaction, key: Seq<u8>) -> bool {
    exists|t: u64|
        #[trigger] b.version_set(key).contains(t) && !txn.sees(t) && forall|u: u64| #[trigger]
            b.version_set(key).contains(u) ==> u <= t
}

/// A store with transactions over it.
pub struct TxnEngine {
    pub storage: Bitcask,
    pub manager: TxnManager,
}

/// The versioned keys of a queue of superseded versions.
pub open spec fn clean_set(q: Seq<(u64, Vec<u8>)>) -> Set<Seq<u8>> {
    Set::new(|k: Seq<u8>| exists|i: int| 0 <= i < q.len() && k == #[trigger] versioned_key(q[i].1@, q[i].0))
}

/// The versions at `ts` of `keys`.
pub open spec fn version_keys(keys: Seq<Seq<u8>>, ts: u64) -> Set<Seq<u8>> {
    Set::new(|k: Seq<u8>| exists|i: int| 0 <= i < keys.len() && k == #[trigger] versioned_key(keys[i], ts))
}

/// Deletes the version of `key` written at `ts`.
fn delete_version(storage: &mut Bitcask, key: &[u8], ts: u64) -> (r: Result<(), Error>)
    requires
        old(storage).wf(),
    ensures
        final(storage).wf(),
        r is Ok ==> final(storage).kv() == old(storage).kv().remove(versioned_key(key@, ts)),
        r is Ok ==> final(storage).index_entry(versioned_key(key@, ts)) is None,
        r is Ok ==> old(storage).index_differs_at(final(storage), versioned_key(key@, ts)),
        r is Err ==> r == Err::<(), Error>(Error::IO) && *final(storage) == *old(storage),
{
    let k = KeySlice::new(slice_to_vec(key), ts).encode();
    proof {
        crate::endian::lemma_u64_round_trip(ts);
        assert(k@.len() > 0);
    }
    storage.delete(k.as_slice())
}

impl TxnEngine {
    pub open spec fn wf(&self) -> bool {
        self.storage.wf() && self.manager.wf()
    }

    /// Takes over `storage`, first rolling back the transactions that a saved manifest
    /// lists as uncommitted; `ts` is the manifest's next timestamp.
    pub fn new(storage: Bitcask, uncommitted: Vec<(u64, Vec<Vec<u8>>)>, ts: u64) -> (r: Result<Self, Error>)
        requires
            storage.wf(),
        ensures
            uncommitted@.len() == 0 ==> (r matches Ok(e) && e.storage == storage),
            r is Err ==> r == Err::<Self, Error>(Error::IO),
            r matches Ok(e) ==> (e.wf() && e.manager.ts == ts && e.manager.active_txn@.len() == 0
                && e.manager.pending_clean@.len() == 0 && e.storage.kv().submap_of(storage.kv())),
            r matches Ok(e) ==> forall|i: int, j: int|
                0 <= i < uncommitted@.len() && 0 <= j < uncommitted@[i].1@.len() ==> !e.storage.kv().contains_key(
                    #[trigger] versioned_key(uncommitted@[i].1@[j]@, uncommitted@[i].0),
                ) && e.storage.index_entry(versioned_key(uncommitted@[i].1@[j]@, uncommitted@[i].0)) is None,
    {
        let ghost initial = storage.kv();
        let ghost s0 = storage;
        let mut storage = storage;
        let mut i: usize = 0;
        while i < uncommitted.len()
            invariant
                i == 0 ==> storage == s0,
                storage.wf(),
                i <= uncommitted@.len(),
                storage.kv().submap_of(initial),
                forall|a: int, b: int|
                    0 <= a < i && 0 <= b < uncommitted@[a].1@.len() ==> !storage.kv().contains_key(
                        #[trigger] versioned_key(uncommitted@[a].1@[b]@, uncommitted@[a].0),
                    ) && storage.index_entry(versioned_key(uncommitted@[a].1@[b]@, uncommitted@[a].0)) is None,
            decreases uncommitted@.len() - i,
        {
            let t = uncommitted[i].0;
            let mut j: usize = 0;
            while j < uncommitted[i].1.len()
                invariant
                    storage.wf(),
                    i < uncommitted@.len(),
                    j <= uncommitted@[i as int].1@.len(),
                    t == uncommitted@[i as int].0,
                    storage.kv().submap_of(initial),
                    forall|a: int, b: int|
                        0 <= a < i && 0 <= b < uncommitted@[a].1@.len() ==> !storage.kv().contains_key(
                            #[trigger] versioned_key(uncommitted@[a].1@[b]@, uncommitted@[a].0),
                        ) && storage.index_entry(versioned_key(uncommitted@[a].1@[b]@, uncommitted@[a].0)) is None,
                    forall|b: int|
                        0 <= b < j ==> !storage.kv().contains_key(
                            #[trigger] versioned_key(uncommitted@[i as int].1@[b]@, t),
                        ) && storage.index_entry(versioned_key(uncommitted@[i as int].1@[b]@, t)) is None,
                decreases uncommitted@[i as int].1@.len() - j,
            {
                if let Err(e) = delete_version(&mut storage, uncommitted[i].1[j].as_slice(), t) {
                    return Err(e);
                }
                j = j + 1;
            }
            i = i + 1;
        }
        Ok(TxnEngine { storage, manager: TxnManager::new(Vec::new(), ts) })
    }

    /// Starts a transaction at the next timestamp.
    pub fn begin_transaction(&mut self) -> (r: Transaction)
        requires
            old(self).wf(),
            old(self).manager.ts < u64::MAX,
        ensures
            final(self).wf(),
            r.ts == old(self).manager.ts,
            r.active_txn_ids@ == old(self).manager.active_ids(),
            final(self).manager.active_ids() == old(self).manager.active_ids().insert(r.ts),
            final(self).manager.ts == old(self).manager.ts + 1,
            final(self).storage == old(self).storage,
    {
        Transaction::begin(&mut self.manager)
    }

    /// Deletes the versions queued as superseded; every other key keeps its value.
    pub fn clean_up(&mut self) -> (r: Result<(), Error>)
        requires
            old(self).wf(),
        ensures
            final(self).wf(),
            final(self).manager.pending_clean@.len() == 0,
            final(self).manager.active_txn@ == old(self).manager.active_txn@,
            final(self).manager.ts == old(self).manager.ts,
            final(self).storage.kv().submap_of(old(self).storage.kv()),
            final(self).storage.kv().remove_keys(clean_set(old(self).manager.pending_clean@))
                == old(self).storage.kv().remove_keys(clean_set(old(self).manager.pending_clean@)),
            r is Ok ==> forall|k: Seq<u8>| #[trigger] clean_set(old(self).manager.pending_clean@).contains(k)
                ==> !final(self).storage.kv().contains_key(k) && final(self).storage.index_entry(k) is None,
            r is Err ==> r == Err::<(), Error>(Error::IO),
    {
        let mut pending: Vec<(u64, Vec<u8>)> = Vec::new();
        std::mem::swap(&mut pending, &mut self.manager.pending_clean);
        let ghost q = pending@;
        let ghost s0 = clean_set(q);
        let ghost k0 = self.storage.kv();
        let mut i: usize = 0;
        while i < pending.len()
            invariant
                self.wf(),
                q == pending@,
                q == old(self).manager.pending_clean@,
                s0 == clean_set(q),
                k0 == old(self).storage.kv(),
                self.manager.pending_clean@.len() == 0,
                self.manager.active_txn@ == old(self).manager.active_txn@,
                self.manager.ts == old(self).manager.ts,
                i <= pending@.len(),
                self.storage.kv().submap_of(k0),
                self.storage.kv().remove_keys(s0) == k0.remove_keys(s0),
                forall|j: int| 0 <= j < i ==> !self.storage.kv().contains_key(#[trigger] versioned_key(q[j].1@, q[j].0))
                    && self.storage.index_entry(versioned_key(q[j].1@, q[j].0)) is None,
            decreases pending@.len() - i,
        {
            let ghost before = self.storage.kv();
            let ghost vk = versioned_key(q[i as int].1@, q[i as int].0);
            if let Err(e) = delete_version(&mut self.storage, pending[i].1.as_slice(), pending[i].0) {
                return Err(e);
            }
            proof {
                assert(s0.contains(vk));
                assert(self.storage.kv().remove_keys(s0) =~= before.remove_keys(s0));
            }
            i = i + 1;
        }
        proof {
            assert forall|k: Seq<u8>| #[trigger] s0.contains(k) implies !self.storage.kv().contains_key(k) by {
                let j = choose|j: int| 0 <= j < q.len() && k == #[trigger] versioned_key(q[j].1@, q[j].0);
            }
        }
        Ok(())
    }

    pub fn sync(&mut self) -> (r: Result<(), Error>)
        requires
            old(self).wf(),
        ensures
            r is Ok,
            final(self).wf(),
            final(self).storage.kv() == old(self).storage.kv(),
    {
        self.storage.sync()
    }

    pub fn close(&mut self) -> (r: Result<(), Error>)
        requires
            old(self).wf(),
        ensures
            r is Ok,
            final(self).wf(),
            final(self).storage.kv() == old(self).storage.kv(),
    {
        self.storage.close()
    }

    /// The manifest to save, encoded.
    pub fn manifest_bytes(&self) -> (r: Result<Vec<u8>, Error>)
        ensures
            r is Ok,
            r matches Ok(b) ==> b@ == crate::txn_manager::manifest_encoding(
                crate::txn_manager::manifest_view(self.manager.active_txn@),
                self.manager.ts,
            ),
    {
        self.manager.sync_to_file()
    }

    /// The uncommitted transactions with the keys each wrote, and the next timestamp:
    /// what must be saved for a later rollback.
    pub fn manifest(&self) -> (r: (Vec<(u64, Vec<Vec<u8>>)>, u64))
        ensures
            r.1 == self.manager.ts,
            crate::txn_manager::manifest_view(r.0@) == crate::txn_manager::manifest_view(self.manager.active_txn@),
    {
        let mut out: Vec<(u64, Vec<Vec<u8>>)> = Vec::new();
        let mut i: usize = 0;
        while i < self.manager.active_txn.len()
            invariant
                i <= self.manager.active_txn@.len(),
                out@.len() == i,
                forall|b: int| 0 <= b < i ==> (#[trigger] out@[b]).0 == self.manager.active_txn@[b].0
                    && out@[b].1@.map_values(|k: Vec<u8>| k@) == self.manager.active_txn@[b].1@.map_values(|k: Vec<u8>| k@),
            decreases self.manager.active_txn@.len() - i,
        {
            let mut keys: Vec<Vec<u8>> = Vec::new();
            let mut j: usize = 0;
            while j < self.manager.active_txn[i].1.len()
                invariant
                    i < self.manager.active_txn@.len(),
                    j <= self.manager.active_txn@[i as int].1@.len(),
                    keys@.len() == j,
                    forall|b: int| 0 <= b < j ==> (#[trigger] keys@[b])@ == self.manager.active_txn@[i as int].1@[b]@,
                decreases self.manager.active_txn@[i as int].1@.len() - j,
            {
                keys.push(slice_to_vec(self.manager.active_txn[i].1[j].as_slice()));
                j = j + 1;
            }
            proof {
                assert(keys@.map_values(|k: Vec<u8>| k@) =~= self.manager.active_txn@[i as int].1@.map_values(|k: Vec<u8>| k@));
            }
            out.push((self.manager.active_txn[i].0, keys));
            i = i + 1;
        }
        proof {
            assert(crate::txn_manager::manifest_view(out@) =~= crate::txn_manager::manifest_view(self.manager.active_txn@));
        }
        (out, self.manager.ts)
    }
}

impl Transaction {
    /// Starts a transaction: takes the next timestamp and the set of transactions
    /// running now, and registers itself.
    pub fn begin(manager: &mut TxnManager) -> (r: Self)
        requires
            old(manager).wf(),
            old(manager).ts < u64::MAX,
        ensures
            final(manager).wf(),
            r.ts == old(manager).ts,
            r.active_txn_ids@ == old(manager).active_ids(),
            final(manager).active_ids() == old(manager).active_ids().insert(r.ts),
            final(manager).ts == old(manager).ts + 1,
    {
        let ts = manager.acquire_next_ts();
        proof {
            if manager.active_ids().contains(ts) {
                let i = choose|i: int| 0 <= i < manager.active_txn@.len() && #[trigger] manager.active_txn@[i].0 == ts;
                assert(old(manager).active_txn@[i].0 < old(manager).ts);
            }
        }
        let active_txn_ids = manager.add_txn(ts);
        Transaction { ts, active_txn_ids }
    }

    /// Reads `key` as of this transaction's snapshot.
    pub fn get(&self, engine: &TxnEngine, key: &[u8]) -> (r: Result<Vec<u8>, Error>)
        requires
            engine.wf(),
        ensures
            key@.len() == 0 ==> r == Err::<Vec<u8>, Error>(Error::EmptyKey),
            key@.len() > 0 ==> (r is Ok <==> txn_value(&engine.storage, self, key@) is Some),
            r matches Ok(v) ==> v@ == txn_value(&engine.storage, self, key@)->0,
            key@.len() > 0 && r is Err ==> r == Err::<Vec<u8>, Error>(Error::NotFound),
    {
        let key = slice_to_vec(key);
        if let Err(e) = check_key_valid(&key) {
            return Err(e);
        }
        let ghost vs = engine.storage.version_set(key@);
        let (pos, ts) = match engine.storage.txn_search(key.as_slice(), TxnSearchType::Read, self) {
            Ok(found) => found,
            Err(_) => {
                proof {
                    assert(!exists|t: u64| #[trigger] vs.contains(t) && self.sees(t));
                }
                return Err(Error::NotFound);
            },
        };
        proof {
            lemma_newest_unique(vs, self, ts);
        }
        let record = match engine.storage.get_record_with_pos(pos) {
            Ok(rd) => rd,
            Err(e) => return Err(e),
        };
        match record.record_type() {
            RecordType::Deleted => Err(Error::NotFound),
            RecordType::Normal => Ok(slice_to_vec(record.value())),
        }
    }

    pub fn is_visible(&self, ts: u64) -> (r: bool)
        ensures
            r == self.sees(ts),
    {
        if self.active_txn_ids.contains(&ts) {
            return false;
        }
        ts <= self.ts
    }

    /// Writes `record` as this transaction's version of its key.
    fn write(&self, engine: &mut TxnEngine, record: Record) -> (r: Result<(), Error>)
        requires
            old(engine).wf(),
            self.ts < old(engine).manager.ts,
            record@.key.len() > 0,
            record@.key.len() + record@.value.len() + 30 <= u32::MAX,
        ensures
            final(engine).wf(),
            final(engine).manager.ts == old(engine).manager.ts,
            r == Err::<(), Error>(Error::TxnConflict) <==> conflicts(&old(engine).storage, self, record@.key),
            r == Err::<(), Error>(Error::TxnConflict) ==> *final(engine) == *old(engine),
            !conflicts(&old(engine).storage, self, record@.key) ==> (r is Ok <==> old(engine).storage.can_append(
                normal_len(versioned_key(record@.key, self.ts), record@.value))),
            r is Ok ==> final(engine).manager.keys_of(self.ts) == old(engine).manager.keys_of(self.ts).push(record@.key),
            r is Ok ==> final(engine).manager.active_ids() == old(engine).manager.active_ids().insert(self.ts),
            r is Ok ==> final(engine).storage.kv() == apply_record(
                old(engine).storage.kv(),
                RecordView { key: versioned_key(record@.key, self.ts), batch_state: BatchState::Disable, ..record@ },
            ),
            r is Ok ==> final(engine).manager.active_ids().contains(self.ts),
            r is Err ==> final(engine).storage.kv() == old(engine).storage.kv(),
            r matches Err(e) ==> (e == Error::TxnConflict || e == Error::IO),
    {
        let Record { record_type, key, value, batch_state: _ } = record;
        match engine.storage.txn_search(key.as_slice(), TxnSearchType::Write, self) {
            Ok((_, ts)) => {
                if ts != self.ts {
                    engine.manager.mark_to_clean(ts, slice_to_vec(key.as_slice()));
                }
                proof {
                    assert(!conflicts(&old(engine).storage, self, key@));
                }
            },
            Err(Error::NotFound) => {},
            Err(e) => return Err(e),
        }
        engine.manager.update_txn(self.ts, key.as_slice());
        let versioned = KeySlice::new(key, self.ts).encode();
        let write_record = Record { record_type, key: versioned, value, batch_state: BatchState::Disable };
        proof {
            crate::endian::lemma_u64_round_trip(self.ts);
        }
        match engine.storage.txn_write(write_record) {
            Ok(()) => Ok(()),
            Err(_) => Err(Error::IO),
        }
    }

    /// Writes `value` under `key` in this transaction.
    pub fn put(&self, engine: &mut TxnEngine, key: &[u8], value: &[u8]) -> (r: Result<(), Error>)
        requires
            old(engine).wf(),
            self.ts < old(engine).manager.ts,
        ensures
            final(engine).wf(),
            key@.len() == 0 ==> r == Err::<(), Error>(Error::EmptyKey) && *final(engine) == *old(engine),
            key@.len() > 0 && key@.len() + value@.len() + 30 <= u32::MAX ==> (r == Err::<(), Error>(
                Error::TxnConflict,
            ) <==> conflicts(&old(engine).storage, self, key@)),
            key@.len() > 0 && key@.len() + value@.len() + 30 <= u32::MAX && !conflicts(&old(engine).storage, self, key@)
                ==> (r is Ok <==> old(engine).storage.can_put(versioned_key(key@, self.ts), value@)),
            r is Ok ==> final(engine).manager.keys_of(self.ts) == old(engine).manager.keys_of(self.ts).push(key@),
            r == Err::<(), Error>(Error::TxnConflict) ==> *final(engine) == *old(engine),
            r is Ok ==> final(engine).storage.kv() == old(engine).storage.kv().insert(
                versioned_key(key@, self.ts),
                value@,
            ),
            r is Err ==> final(engine).storage.kv() == old(engine).storage.kv(),
            r matches Err(e) ==> (e == Error::EmptyKey || e == Error::TxnConflict || e == Error::IO),
    {
        let key = slice_to_vec(key);
        let value = slice_to_vec(value);
        if let Err(e) = check_key_valid(&key) {
            return Err(e);
        }
        if key.len() as u128 + value.len() as u128 + 30 > u32::MAX as u128 {
            return Err(Error::IO);
        }
        self.write(engine, Record::normal(key, value))
    }

    /// Deletes `key` in this transaction.
    pub fn delete(&self, engine: &mut TxnEngine, key: &[u8]) -> (r: Result<(), Error>)
        requires
            old(engine).wf(),
            self.ts < old(engine).manager.ts,
        ensures
            final(engine).wf(),
            key@.len() == 0 ==> r == Err::<(), Error>(Error::EmptyKey) && *final(engine) == *old(engine),
            key@.len() > 0 && key@.len() + 30 <= u32::MAX ==> (r == Err::<(), Error>(
                Error::TxnConflict,
            ) <==> conflicts(&old(engine).storage, self, key@)),
            key@.len() > 0 && key@.len() + 30 <= u32::MAX && !conflicts(&old(engine).storage, self, key@)
                ==> (r is Ok <==> old(engine).storage.can_delete(versioned_key(key@, self.ts))),
            r is Ok ==> final(engine).manager.keys_of(self.ts) == old(engine).manager.keys_of(self.ts).push(key@),
            r == Err::<(), Error>(Error::TxnConflict) ==> *final(engine) == *old(engine),
            r is Ok ==> final(engine).storage.kv() == old(engine).storage.kv().remove(
                versioned_key(key@, self.ts),
            ),
            r is Err ==> final(engine).storage.kv() == old(engine).storage.kv(),
            r matches Err(e) ==> (e == Error::EmptyKey || e == Error::TxnConflict || e == Error::IO),
    {
        let key = slice_to_vec(key);
        if let Err(e) = check_key_valid(&key) {
            return Err(e);
        }
        if key.len() as u128 + 30 > u32::MAX as u128 {
            return Err(Error::IO);
        }
        self.write(engine, Record::deleted(key))
    }

    /// Ends the transaction, keeping its writes. When no transaction is left active,
    /// the superseded versions queued so far are deleted.
    pub fn commit(&self, engine: &mut TxnEngine) -> (r: Result<(), Error>)
        requires
            old(engine).wf(),
        ensures
            final(engine).wf(),
            final(engine).manager.active_ids() == old(engine).manager.active_ids().remove(self.ts),
            final(engine).manager.ts == old(engine).manager.ts,
            final(engine).manager.active_txn@.len() > 0 ==> r is Ok
                && final(engine).storage.kv() == old(engine).storage.kv()
                && final(engine).storage.indexs == old(engine).storage.indexs
                && final(engine).storage.opts == old(engine).storage.opts
                && final(engine).manager.pending_clean@ == old(engine).manager.pending_clean@,
            final(engine).storage.kv().submap_of(old(engine).storage.kv()),
            final(engine).storage.kv().remove_keys(clean_set(old(engine).manager.pending_clean@))
                == old(engine).storage.kv().remove_keys(clean_set(old(engine).manager.pending_clean@)),
            final(engine).manager.active_txn@.len() == 0 && r is Ok ==> final(engine).manager.pending_clean@.len() == 0
                && forall|k: Seq<u8>| #[trigger] clean_set(old(engine).manager.pending_clean@).contains(k)
                ==> !final(engine).storage.kv().contains_key(k) && final(engine).storage.index_entry(k) is None,
            r is Err ==> r == Err::<(), Error>(Error::IO),
    {
        engine.manager.remove_txn(self.ts);
        let ghost mid = *engine;
        let mut r: Result<(), Error> = Ok(());
        if engine.manager.active_txn.len() == 0 {
            r = engine.clean_up();
        } else {
            proof {
                assert(engine.storage.kv().remove_keys(clean_set(old(engine).manager.pending_clean@))
                    =~= old(engine).storage.kv().remove_keys(clean_set(old(engine).manager.pending_clean@)));
            }
        }
        let _ = engine.storage.sync();
        r
    }

    /// Ends the transaction, deleting every version it wrote.
    pub fn rollback(&self, engine: &mut TxnEngine) -> (r: Result<(), Error>)
        requires
            old(engine).wf(),
        ensures
            final(engine).wf(),
            final(engine).manager.active_ids() == old(engine).manager.active_ids().remove(self.ts),
            final(engine).manager.ts == old(engine).manager.ts,
            final(engine).storage.kv().submap_of(old(engine).storage.kv()),
            final(engine).storage.kv().remove_keys(version_keys(old(engine).manager.keys_of(self.ts), self.ts))
                == old(engine).storage.kv().remove_keys(version_keys(old(engine).manager.keys_of(self.ts), self.ts)),
            r is Ok ==> forall|k: Seq<u8>| #[trigger] version_keys(old(engine).manager.keys_of(self.ts), self.ts).contains(k)
                ==> !final(engine).storage.kv().contains_key(k) && final(engine).storage.index_entry(k) is None,
            r is Err ==> r == Err::<(), Error>(Error::IO),
    {
        let ghost ks = old(engine).manager.keys_of(self.ts);
        let ghost vs = version_keys(ks, self.ts);
        let ghost k0 = old(engine).storage.kv();
        match engine.manager.remove_txn(self.ts) {
            Some(keys) => {
                let mut i: usize = 0;
                while i < keys.len()
                    invariant
                        engine.wf(),
                        keys@.map_values(|k: Vec<u8>| k@) == ks,
                        ks == old(engine).manager.keys_of(self.ts),
                        vs == version_keys(ks, self.ts),
                        k0 == old(engine).storage.kv(),
                        engine.manager.active_ids() == old(engine).manager.active_ids().remove(self.ts),
                        engine.manager.ts == old(engine).manager.ts,
                        i <= keys@.len(),
                        engine.storage.kv().submap_of(k0),
                        engine.storage.kv().remove_keys(vs) == k0.remove_keys(vs),
                        forall|j: int| 0 <= j < i ==> !engine.storage.kv().contains_key(#[trigger] versioned_key(ks[j], self.ts))
                            && engine.storage.index_entry(versioned_key(ks[j], self.ts)) is None,
                    decreases keys@.len() - i,
                {
                    let ghost before = engine.storage.kv();
                    proof {
                        assert(ks[i as int] == keys@[i as int]@);
                        assert(vs.contains(versioned_key(ks[i as int], self.ts)));
                    }
                    if let Err(e) = delete_version(&mut engine.storage, keys[i].as_slice(), self.ts) {
                        return Err(e);
                    }
                    proof {
                        assert(engine.storage.kv().remove_keys(vs) =~= before.remove_keys(vs));
                    }
                    i = i + 1;
                }
                proof {
                    assert forall|k: Seq<u8>| #[trigger] vs.contains(k) implies !engine.storage.kv().contains_key(k) by {
                        let j = choose|j: int| 0 <= j < ks.len() && k == #[trigger] versioned_key(ks[j], self.ts);
                    }
                }
            },
            None => {
                proof {
                    assert(engine.storage.kv().remove_keys(vs) =~= k0.remove_keys(vs));
                }
            },
        }
        let _ = engine.storage.sync();
        Ok(())
    }
}

/// The newest visible version is the one a search finds.
pub proof fn lemma_newest_unique(vs: Set<u64>, txn: &Transaction, ts: u64)
    requires
        vs.contains(ts),
        txn.sees(ts),
        forall|t: u64| #[trigger] vs.contains(t) && txn.sees(t) ==> t <= ts,
    ensures
        newest_visible(vs, txn) == Some(ts),
{
    assert(vs.contains(ts) && txn.sees(ts));
    let c = choose|t: u64|
        #[trigger] vs.contains(t) && txn.sees(t) && forall|u: u64| #[trigger]
            vs.contains(u) && txn.sees(u) ==> u <= t;
    assert(c <= ts && ts <= c);
}

/// Visibility is monotone: below a visible timestamp, exactly the timestamps outside
/// the active set are visible, and nothing above the transaction's own is.
pub proof fn lemma_visibility_monotone(ts: u64, active: Set<u64>, a: u64, b: u64)
    requires
        a <= b,
    ensures
        visible(ts, active, b) ==> (visible(ts, active, a) <==> !active.contains(a)),
        !visible(ts, active, a) && !active.contains(a) ==> !visible(ts, active, b),
        a > ts ==> !visible(ts, active, a),
{
}

} // verus!
