use vstd::prelude::*;
use std::collections::HashSet;
use vstd::slice::slice_to_vec;

use crate::error::Error;

verus! {

broadcast use vstd::std_specs::hash::group_hash_axioms;

/// The uncommitted transactions of a manifest, as values.
pub open spec fn manifest_view(active: Seq<(u64, Vec<Vec<u8>>)>) -> Seq<(u64, Seq<Seq<u8>>)> {
    active.map_values(|e: (u64, Vec<Vec<u8>>)| (e.0, e.1@.map_values(|k: Vec<u8>| k@)))
}

/// The bytes that encode a manifest: the uncommitted transactions and the next timestamp.
pub uninterp spec fn manifest_encoding(active: Seq<(u64, Seq<Seq<u8>>)>, ts: u64) -> Seq<u8>;

/// The manifest that some bytes decode to, if any.
pub uninterp spec fn manifest_decoding(b: Seq<u8>) -> Option<(Seq<(u64, Seq<Seq<u8>>)>, u64)>;

/// Relies on `bincode::serialize`: the default encoding of the pair, which depends
/// on its value alone; with no size limit and only integers and byte strings to
/// write, it does not fail.
#[verifier::external_body]
fn serialize_manifest(active: &Vec<(u64, Vec<Vec<u8>>)>, ts: u64) -> (r: Option<Vec<u8>>)
    ensures
        r is Some,
        r matches Some(b) ==> b@ == manifest_encoding(manifest_view(active@), ts),
{
    bincode::serialize(&(active, ts)).ok()
}

/// Relies on `bincode::deserialize`: the pair the bytes encode under the default
/// encoding, which depends on the bytes alone.
#[verifier::external_body]
fn deserialize_manifest(buf: &[u8]) -> (r: Option<(Vec<(u64, Vec<Vec<u8>>)>, u64)>)
    ensures
        r matches Some(m) ==> manifest_decoding(buf@) == Some((manifest_view(m.0@), m.1)),
        r is None ==> manifest_decoding(buf@) is None,
{
    bincode::deserialize::<(Vec<(u64, Vec<Vec<u8>>)>, u64)>(buf).ok()
}

/// Bookkeeping shared by transactions: the timestamp counter, the keys each active
/// transaction has written, and superseded versions awaiting deletion.
pub struct TxnManager {
    pub ts: u64,
    pub active_txn: Vec<(u64, Vec<Vec<u8>>)>,
    pub pending_clean: Vec<(u64, Vec<u8>)>,
}

impl TxnManager {
    /// The timestamps of the active transactions.
    pub open spec fn active_ids(&self) -> Set<u64> {
        Set::new(|t: u64| exists|i: int| 0 <= i < self.active_txn@.len() && #[trigger] self.active_txn@[i].0 == t)
    }

    /// The keys transaction `version` has written, in order.
    pub open spec fn keys_of(&self, version: u64) -> Seq<Seq<u8>> {
        if exists|i: int| 0 <= i < self.active_txn@.len() && #[trigger] self.active_txn@[i].0 == version {
            let i = choose|i: int| 0 <= i < self.active_txn@.len() && #[trigger] self.active_txn@[i].0 == version;
            self.active_txn@[i].1@.map_values(|k: Vec<u8>| k@)
        } else {
            Seq::empty()
        }
    }

    /// Each active transaction is listed once, below the next timestamp.
    pub open spec fn wf(&self) -> bool {
        &&& forall|i: int, j: int|
            0 <= i < j < self.active_txn@.len() ==> #[trigger] self.active_txn@[i].0 != #[trigger] self.active_txn@[j].0
        &&& forall|i: int| 0 <= i < self.active_txn@.len() ==> #[trigger] self.active_txn@[i].0 < self.ts
    }

    /// A manager resumed from a saved manifest: the uncommitted transactions and the
    /// next timestamp.
    pub fn new(active_txn: Vec<(u64, Vec<Vec<u8>>)>, ts: u64) -> (r: Self)
        ensures
            r.ts == ts,
            r.active_txn@ == active_txn@,
            r.pending_clean@.len() == 0,
            active_txn@.len() == 0 ==> r.wf(),
    {
        TxnManager { ts, active_txn, pending_clean: Vec::new() }
    }

    /// Hands out the next timestamp.
    pub fn acquire_next_ts(&mut self) -> (r: u64)
        requires
            old(self).ts < u64::MAX,
            old(self).wf(),
        ensures
            r == old(self).ts,
            final(self).wf(),
            final(self).ts == old(self).ts + 1,
            final(self).active_txn@ == old(self).active_txn@,
            final(self).pending_clean@ == old(self).pending_clean@,
    {
        let t = self.ts;
        self.ts = t + 1;
        t
    }

    /// Registers transaction `version`, taken fresh from the counter, and returns the
    /// timestamps active before it.
    pub fn add_txn(&mut self, version: u64) -> (r: HashSet<u64>)
        requires
            old(self).wf(),
            version < old(self).ts,
            !old(self).active_ids().contains(version),
        ensures
            final(self).wf(),
            r@ == old(self).active_ids(),
            final(self).active_ids() == old(self).active_ids().insert(version),
            final(self).keys_of(version).len() == 0,
            final(self).ts == old(self).ts,
            final(self).pending_clean@ == old(self).pending_clean@,
    {
        let mut ids: HashSet<u64> = HashSet::new();
        let mut i: usize = 0;
        while i < self.active_txn.len()
            invariant
                i <= self.active_txn@.len(),
                ids@ == Set::new(|t: u64| exists|j: int| 0 <= j < i && #[trigger] self.active_txn@[j].0 == t),
            decreases self.active_txn@.len() - i,
        {
            ids.insert(self.active_txn[i].0);
            i = i + 1;
            proof {
                assert(ids@ =~= Set::new(|t: u64| exists|j: int| 0 <= j < i && #[trigger] self.active_txn@[j].0 == t));
            }
        }
        self.active_txn.push((version, Vec::new()));
        proof {
            assert(ids@ =~= old(self).active_ids());
            let n = old(self).active_txn@.len() as int;
            assert(self.active_txn@[n].0 == version);
            assert forall|t: u64| #[trigger] self.active_ids().contains(t) == old(self).active_ids().insert(version).contains(t) by {
                if t != version && self.active_ids().contains(t) {
                    let j = choose|j: int| 0 <= j < self.active_txn@.len() && #[trigger] self.active_txn@[j].0 == t;
                    assert(old(self).active_txn@[j].0 == t);
                }
                if old(self).active_ids().contains(t) {
                    let j = choose|j: int| 0 <= j < old(self).active_txn@.len() && #[trigger] old(self).active_txn@[j].0 == t;
                    assert(self.active_txn@[j].0 == t);
                }
            }
            assert(self.active_ids() =~= old(self).active_ids().insert(version));
            assert forall|i: int, j: int| 0 <= i < j < self.active_txn@.len() implies #[trigger] self.active_txn@[i].0 != #[trigger] self.active_txn@[j].0 by {
                if j == n {
                    assert(old(self).active_ids().contains(old(self).active_txn@[i].0));
                }
            }
            self.lemma_keys_at(n);
            assert(self.active_txn@[n].1@.map_values(|k: Vec<u8>| k@) =~= Seq::<Seq<u8>>::empty());
        }
        ids
    }

    /// Under unique timestamps, the keys of `version` are those of its one entry.
    pub proof fn lemma_keys_at(&self, i: int)
        requires
            self.wf(),
            0 <= i < self.active_txn@.len(),
        ensures
            self.keys_of(self.active_txn@[i].0) == self.active_txn@[i].1@.map_values(|k: Vec<u8>| k@),
    {
        let v = self.active_txn@[i].0;
        let c = choose|c: int| 0 <= c < self.active_txn@.len() && #[trigger] self.active_txn@[c].0 == v;
        if c != i {
            if c < i {
                assert(self.active_txn@[c].0 != self.active_txn@[i].0);
            } else {
                assert(self.active_txn@[i].0 != self.active_txn@[c].0);
            }
        }
    }

    fn find(&self, version: u64) -> (r: Option<usize>)
        ensures
            match r {
                Some(i) => i < self.active_txn@.len() && self.active_txn@[i as int].0 == version,
                None => !self.active_ids().contains(version),
            },
    {
        let mut i: usize = 0;
        while i < self.active_txn.len()
            invariant
                i <= self.active_txn@.len(),
                forall|j: int| 0 <= j < i ==> #[trigger] self.active_txn@[j].0 != version,
            decreases self.active_txn@.len() - i,
        {
            if self.active_txn[i].0 == version {
                return Some(i);
            }
            i = i + 1;
        }
        None
    }

    /// Unregisters transaction `version`, returning the keys it wrote.
    pub fn remove_txn(&mut self, version: u64) -> (r: Option<Vec<Vec<u8>>>)
        requires
            old(self).wf(),
        ensures
            final(self).wf(),
            r is Some <==> old(self).active_ids().contains(version),
            r matches Some(keys) ==> keys@.map_values(|k: Vec<u8>| k@) == old(self).keys_of(version),
            r is None ==> old(self).keys_of(version).len() == 0,
            final(self).active_ids() == old(self).active_ids().remove(version),
            final(self).ts == old(self).ts,
            final(self).pending_clean@ == old(self).pending_clean@,
    {
        match self.find(version) {
            Some(i) => {
                proof {
                    old(self).lemma_keys_at(i as int);
                }
                let (_, keys) = self.active_txn.remove(i);
                proof {
                    assert forall|t: u64| #[trigger] self.active_ids().contains(t) == old(self).active_ids().remove(version).contains(t) by {
                        if self.active_ids().contains(t) {
                            let j = choose|j: int| 0 <= j < self.active_txn@.len() && #[trigger] self.active_txn@[j].0 == t;
                            if j < i {
                                assert(old(self).active_txn@[j].0 == t);
                                assert(old(self).active_txn@[j].0 != old(self).active_txn@[i as int].0);
                            } else {
                                assert(old(self).active_txn@[j + 1].0 == t);
                                assert(old(self).active_txn@[i as int].0 != old(self).active_txn@[j + 1].0);
                            }
                        }
                        if old(self).active_ids().contains(t) && t != version {
                            let j = choose|j: int| 0 <= j < old(self).active_txn@.len() && #[trigger] old(self).active_txn@[j].0 == t;
                            if j < i {
                                assert(self.active_txn@[j].0 == t);
                            } else {
                                assert(j != i);
                                assert(self.active_txn@[j - 1].0 == t);
                            }
                        }
                    }
                    assert(self.active_ids() =~= old(self).active_ids().remove(version));
                    assert forall|a: int, b: int| 0 <= a < b < self.active_txn@.len() implies #[trigger] self.active_txn@[a].0 != #[trigger] self.active_txn@[b].0 by {
                        let a2 = if a < i { a } else { a + 1 };
                        let b2 = if b < i { b } else { b + 1 };
                        assert(self.active_txn@[a] == old(self).active_txn@[a2]);
                        assert(self.active_txn@[b] == old(self).active_txn@[b2]);
                        assert(old(self).active_txn@[a2].0 != old(self).active_txn@[b2].0);
                    }
                    assert forall|a: int| 0 <= a < self.active_txn@.len() implies #[trigger] self.active_txn@[a].0 < self.ts by {
                        let a2 = if a < i { a } else { a + 1 };
                        assert(self.active_txn@[a] == old(self).active_txn@[a2]);
                    }
                }
                Some(keys)
            },
            None => {
                proof {
                    assert(self.active_ids() =~= old(self).active_ids().remove(version));
                }
                None
            },
        }
    }

    /// Records that transaction `version` wrote `key`.
    pub fn update_txn(&mut self, version: u64, key: &[u8])
        requires
            old(self).wf(),
            version < old(self).ts,
        ensures
            final(self).wf(),
            final(self).active_ids() == old(self).active_ids().insert(version),
            final(self).keys_of(version) == old(self).keys_of(version).push(key@),
            final(self).ts == old(self).ts,
            final(self).pending_clean@ == old(self).pending_clean@,
    {
        match self.find(version) {
            Some(i) => {
                proof {
                    old(self).lemma_keys_at(i as int);
                }
                let (v, mut keys) = self.active_txn.remove(i);
                keys.push(slice_to_vec(key));
                self.active_txn.insert(i, (v, keys));
                proof {
                    assert forall|j: int| 0 <= j < self.active_txn@.len() implies #[trigger] self.active_txn@[j].0 == old(self).active_txn@[j].0 by {}
                    assert forall|t: u64| #[trigger] self.active_ids().contains(t) == old(self).active_ids().insert(version).contains(t) by {
                        if self.active_ids().contains(t) {
                            let j = choose|j: int| 0 <= j < self.active_txn@.len() && #[trigger] self.active_txn@[j].0 == t;
                            assert(old(self).active_txn@[j].0 == t);
                        }
                        if old(self).active_ids().contains(t) {
                            let j = choose|j: int| 0 <= j < old(self).active_txn@.len() && #[trigger] old(self).active_txn@[j].0 == t;
                            assert(self.active_txn@[j].0 == t);
                        }
                    }
                    assert(self.active_ids() =~= old(self).active_ids().insert(version));
                    assert forall|a: int, b: int| 0 <= a < b < self.active_txn@.len() implies #[trigger] self.active_txn@[a].0 != #[trigger] self.active_txn@[b].0 by {
                        assert(old(self).active_txn@[a].0 != old(self).active_txn@[b].0);
                    }
                    self.lemma_keys_at(i as int);
                    assert(keys@.map_values(|k: Vec<u8>| k@) =~= old(self).active_txn@[i as int].1@.map_values(|k: Vec<u8>| k@).push(key@));
                }
            },
            None => {
                let mut keys: Vec<Vec<u8>> = Vec::new();
                keys.push(slice_to_vec(key));
                self.active_txn.push((version, keys));
                proof {
                    let n = old(self).active_txn@.len() as int;
                    assert(self.active_txn@[n].0 == version);
                    assert forall|t: u64| #[trigger] self.active_ids().contains(t) == old(self).active_ids().insert(version).contains(t) by {
                        if t != version && self.active_ids().contains(t) {
                            let j = choose|j: int| 0 <= j < self.active_txn@.len() && #[trigger] self.active_txn@[j].0 == t;
                            assert(old(self).active_txn@[j].0 == t);
                        }
                        if old(self).active_ids().contains(t) {
                            let j = choose|j: int| 0 <= j < old(self).active_txn@.len() && #[trigger] old(self).active_txn@[j].0 == t;
                            assert(self.active_txn@[j].0 == t);
                        }
                    }
                    assert(self.active_ids() =~= old(self).active_ids().insert(version));
                    assert forall|a: int, b: int| 0 <= a < b < self.active_txn@.len() implies #[trigger] self.active_txn@[a].0 != #[trigger] self.active_txn@[b].0 by {
                        if b == n {
                            assert(old(self).active_ids().contains(old(self).active_txn@[a].0));
                        }
                    }
                    self.lemma_keys_at(n);
                    assert(keys@.map_values(|k: Vec<u8>| k@) =~= seq![key@]);
                    assert(old(self).keys_of(version) =~= Seq::<Seq<u8>>::empty());
                    assert(seq![key@] =~= Seq::<Seq<u8>>::empty().push(key@));
                }
            },
        }
    }

    /// Reads a saved manifest; an empty one means no transaction ever ran.
    pub fn load_manifest(buf: &[u8]) -> (r: Result<(Vec<(u64, Vec<Vec<u8>>)>, u64), Error>)
        ensures
            buf@.len() == 0 ==> (r matches Ok(m) && m.0@.len() == 0 && m.1 == 0),
            buf@.len() > 0 ==> match r {
                Ok(m) => manifest_decoding(buf@) == Some((manifest_view(m.0@), m.1)),
                Err(e) => e == Error::Corrupt && manifest_decoding(buf@) is None,
            },
    {
        if buf.len() == 0 {
            return Ok((Vec::new(), 0));
        }
        match deserialize_manifest(buf) {
            Some(m) => Ok(m),
            None => Err(Error::Corrupt),
        }
    }

    /// The bytes of the manifest to save: the uncommitted transactions with the keys
    /// each wrote, and the next timestamp.
    pub fn sync_to_file(&self) -> (r: Result<Vec<u8>, Error>)
        ensures
            r is Ok,
            r matches Ok(b) ==> b@ == manifest_encoding(manifest_view(self.active_txn@), self.ts),
    {
        match serialize_manifest(&self.active_txn, self.ts) {
            Some(b) => Ok(b),
            None => Err(Error::IO),
        }
    }

    /// Queues the version of `key` written at `version` for deletion.
    pub fn mark_to_clean(&mut self, version: u64, key: Vec<u8>)
        requires
            old(self).wf(),
        ensures
            final(self).wf(),
            final(self).pending_clean@ == old(self).pending_clean@.push((version, key)),
            final(self).active_txn@ == old(self).active_txn@,
            final(self).ts == old(self).ts,
    {
        self.pending_clean.push((version, key));
    }
}

} // verus!
