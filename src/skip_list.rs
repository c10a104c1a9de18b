use vstd::prelude::*;
use crossbeam_skiplist::SkipMap;

use crate::endian::get_u64;
use crate::error::Error;
use crate::key::versioned_key;
use crate::log_record::{lemma_be_u64_of, RecordPosition};
use crate::transaction::{Transaction, TxnSearchType};

verus! {

#[verifier::external_type_specification]
#[verifier::external_body]
#[verifier::reject_recursive_types(K)]
#[verifier::reject_recursive_types(V)]
pub struct ExSkipMap<K, V>(SkipMap<K, V>);

/// What a skip map from keys to positions holds.
pub uninterp spec fn skip_contents(m: SkipMap<Vec<u8>, RecordPosition>) -> Map<Seq<u8>, RecordPosition>;

/// An index with no entry.
pub open spec fn empty_index() -> Map<Seq<u8>, RecordPosition> {
    Map::empty()
}

/// The timestamps of the versions of `key` held in `m`.
pub open spec fn versions(m: Map<Seq<u8>, RecordPosition>, key: Seq<u8>) -> Set<u64> {
    Set::new(|ts: u64| m.contains_key(versioned_key(key, ts)))
}

/// One index shard: an ordered map from key to the position of its latest record.
pub struct SkipList {
    map: SkipMap<Vec<u8>, RecordPosition>,
}

impl View for SkipList {
    type V = Map<Seq<u8>, RecordPosition>;

    closed spec fn view(&self) -> Map<Seq<u8>, RecordPosition> {
        skip_contents(self.map)
    }
}

impl SkipList {
    /// An empty shard.
    pub fn new() -> (r: Self)
        ensures
            r@ == empty_index(),
    {
        Self::map_new()
    }

    /// Whether the shard holds no entry.
    pub fn is_empty(&self) -> (r: bool)
        ensures
            r == (self@ == empty_index()),
    {
        self.map_is_empty()
    }

    /// The position of `key`, if indexed.
    pub fn get(&self, key: &[u8]) -> (r: Option<RecordPosition>)
        ensures
            r == (if self@.contains_key(key@) {
                Some(self@[key@])
            } else {
                None
            }),
    {
        self.map_get(key)
    }

    /// Whether `key` is indexed.
    pub fn exits(&self, key: &[u8]) -> (r: bool)
        ensures
            r == self@.contains_key(key@),
    {
        self.map_contains(key)
    }

    /// Relies on `SkipMap::new`: a new map is empty.
    #[verifier::external_body]
    fn map_new() -> (r: Self)
        ensures
            skip_contents(r.map) == empty_index(),
    {
        SkipList { map: SkipMap::new() }
    }

    /// Relies on `SkipMap::insert`: the key then maps to the value, replacing any entry.
    #[verifier::external_body]
    fn map_insert(&mut self, key: Vec<u8>, pos: RecordPosition)
        ensures
            skip_contents(final(self).map) == skip_contents(old(self).map).insert(key@, pos),
    {
        self.map.insert(key, pos);
    }

    /// Relies on `SkipMap::remove`: the entry of the key leaves and is returned.
    #[verifier::external_body]
    fn map_remove(&mut self, key: &[u8]) -> (r: Option<RecordPosition>)
        ensures
            skip_contents(final(self).map) == skip_contents(old(self).map).remove(key@),
            r == (if skip_contents(old(self).map).contains_key(key@) {
                Some(skip_contents(old(self).map)[key@])
            } else {
                None
            }),
    {
        self.map.remove(key).map(|e| *e.value())
    }

    /// Relies on `SkipMap::get`: the value of the key's entry, if any.
    #[verifier::external_body]
    fn map_get(&self, key: &[u8]) -> (r: Option<RecordPosition>)
        ensures
            r == (if skip_contents(self.map).contains_key(key@) {
                Some(skip_contents(self.map)[key@])
            } else {
                None
            }),
    {
        self.map.get(key).map(|e| *e.value())
    }

    /// Relies on `SkipMap::contains_key`.
    #[verifier::external_body]
    fn map_contains(&self, key: &[u8]) -> (r: bool)
        ensures
            r == skip_contents(self.map).contains_key(key@),
    {
        self.map.contains_key(key)
    }

    /// Relies on `SkipMap::is_empty`.
    #[verifier::external_body]
    fn map_is_empty(&self) -> (r: bool)
        ensures
            r == (skip_contents(self.map) == empty_index()),
    {
        self.map.is_empty()
    }

    /// Relies on `SkipMap::iter`: every entry, each once.
    #[verifier::external_body]
    fn entries(&self) -> (r: Vec<(Vec<u8>, RecordPosition)>)
        ensures
            forall|i: int|
                0 <= i < r@.len() ==> #[trigger] skip_contents(self.map).contains_key(r@[i].0@) && skip_contents(self.map)[r@[i].0@]
                    == r@[i].1,
            forall|k: Seq<u8>|
                #[trigger] skip_contents(self.map).contains_key(k) ==> exists|i: int|
                    0 <= i < r@.len() && #[trigger] r@[i].0@ == k,
    {
        self.map.iter().map(|e| (e.key().clone(), *e.value())).collect()
    }

    /// Points `key` at `pos`, returning the position it replaced.
    pub fn put(&mut self, key: Vec<u8>, pos: RecordPosition) -> (r: Result<
        Option<RecordPosition>,
        Error,
    >)
        ensures
            final(self)@ == old(self)@.insert(key@, pos),
            r == Ok::<Option<RecordPosition>, Error>(
                if old(self)@.contains_key(key@) {
                    Some(old(self)@[key@])
                } else {
                    None
                },
            ),
    {
        let prev = self.map_remove(key.as_slice());
        self.map_insert(key, pos);
        assert(self@ =~= old(self)@.insert(key@, pos));
        Ok(prev)
    }

    /// Removes `key`, returning its position; fails with `NotFound` if it is absent.
    pub fn delete(&mut self, key: &[u8]) -> (r: Result<RecordPosition, Error>)
        ensures
            final(self)@ == old(self)@.remove(key@),
            old(self)@.contains_key(key@) ==> r == Ok::<RecordPosition, Error>(old(self)@[key@]),
            !old(self)@.contains_key(key@) ==> r == Err::<RecordPosition, Error>(Error::NotFound),
    {
        match self.map_remove(key) {
            Some(p) => Ok(p),
            None => Err(Error::NotFound),
        }
    }

    /// Finds the newest version of `key_prefix` that `txn` may use.
    ///
    /// Reading takes the newest visible version. Writing needs the newest version
    /// overall to be visible, and fails with `TxnConflict` otherwise.
    pub fn txn_prefix_search(
        &self,
        key_prefix: &[u8],
        search_type: TxnSearchType,
        txn: &Transaction,
    ) -> (r: Result<(RecordPosition, u64), Error>)
        ensures
            match r {
                Ok((pos, ts)) => {
                    &&& versions(self@, key_prefix@).contains(ts)
                    &&& txn.sees(ts)
                    &&& pos == self@[versioned_key(key_prefix@, ts)]
                    &&& search_type == TxnSearchType::Read ==> forall|t: u64|
                        #[trigger] versions(self@, key_prefix@).contains(t) && txn.sees(t) ==> t
                            <= ts
                    &&& search_type == TxnSearchType::Write ==> forall|t: u64|
                        #[trigger] versions(self@, key_prefix@).contains(t) ==> t <= ts
                },
                Err(Error::NotFound) => search_type == TxnSearchType::Read ==> forall|t: u64|
                    #[trigger] versions(self@, key_prefix@).contains(t) ==> !txn.sees(t),
                Err(Error::TxnConflict) => {
                    &&& search_type == TxnSearchType::Write
                    &&& exists|t: u64|
                        #[trigger] versions(self@, key_prefix@).contains(t) && !txn.sees(t)
                            && forall|u: u64| #[trigger]
                                versions(self@, key_prefix@).contains(u) ==> u <= t
                },
                Err(_) => false,
            },
            search_type == TxnSearchType::Write && r == Err::<(RecordPosition, u64), Error>(
                Error::NotFound,
            ) ==> versions(self@, key_prefix@) == Set::<u64>::empty(),
    {
        let entries = self.entries();
        let plen = key_prefix.len();
        let ghost vs = versions(self@, key_prefix@);
        let mut best: Option<(RecordPosition, u64)> = None;
        let mut i: usize = 0;
        while i < entries.len()
            invariant
                i <= entries@.len(),
                vs == versions(self@, key_prefix@),
                plen == key_prefix@.len(),
                forall|j: int|
                    0 <= j < entries@.len() ==> #[trigger] self@.contains_key(entries@[j].0@)
                        && self@[entries@[j].0@] == entries@[j].1,
                match best {
                    Some((p, t)) => {
                        &&& vs.contains(t)
                        &&& p == self@[versioned_key(key_prefix@, t)]
                        &&& (search_type == TxnSearchType::Read ==> txn.sees(t))
                        &&& exists|j: int|
                            0 <= j < i && #[trigger] entries@[j].0@ == versioned_key(
                                key_prefix@,
                                t,
                            )
                    },
                    None => true,
                },
                forall|j: int, t: u64|
                    #![trigger entries@[j], versioned_key(key_prefix@, t)]
                    0 <= j < i && entries@[j].0@ == versioned_key(key_prefix@, t) && (
                    search_type == TxnSearchType::Write || txn.sees(t)) ==> at_least(best, t),
            decreases entries@.len() - i,
        {
            let key = &entries[i].0;
            let klen = key.len();
            if klen >= plen && klen - plen == 8 && starts_with(key.as_slice(), key_prefix) {
                let ts = get_u64(key.as_slice(), plen);
                proof {
                    lemma_be_u64_of(key@.subrange(plen as int, plen + 8));
                    assert(key@ =~= versioned_key(key_prefix@, ts));
                    assert(vs.contains(ts));
                }
                let take = match search_type {
                    TxnSearchType::Read => txn.is_visible(ts),
                    TxnSearchType::Write => true,
                };
                if take {
                    let better = match best {
                        Some((_, b)) => b < ts,
                        None => true,
                    };
                    if better {
                        best = Some((entries[i].1, ts));
                    }
                }
                proof {
                    assert forall|j: int, t: u64|
                        #![trigger entries@[j], versioned_key(key_prefix@, t)]
                        0 <= j < i + 1 && entries@[j].0@ == versioned_key(
                            key_prefix@,
                            t,
                        ) && (search_type == TxnSearchType::Write || txn.sees(t)) implies at_least(best, t) by {
                        if j == i {
                            lemma_versioned_key_injective(key_prefix@, t, ts);
                        }
                    }
                }
            } else {
                proof {
                    assert forall|t: u64|
                        #[trigger] versioned_key(key_prefix@, t) != key@ by {
                        if versioned_key(key_prefix@, t) == key@ {
                            assert(key@.subrange(0, plen as int) =~= key_prefix@);
                        }
                    }
                }
            }
            i = i + 1;
        }
        proof {
            assert forall|t: u64| #[trigger] vs.contains(t) implies exists|j: int|
                0 <= j < entries@.len() && entries@[j].0@ == versioned_key(key_prefix@, t) by {
                assert(self@.contains_key(versioned_key(key_prefix@, t)));
            }
        }
        match best {
            None => Err(Error::NotFound),
            Some((p, t)) => {
                if txn.is_visible(t) {
                    Ok((p, t))
                } else {
                    Err(Error::TxnConflict)
                }
            },
        }
    }
}

/// A best candidate has been found, with a timestamp at least `t`.
pub open spec fn at_least(best: Option<(RecordPosition, u64)>, t: u64) -> bool {
    match best {
        Some((_, b)) => t <= b,
        None => false,
    }
}

/// Whether `s` begins with `prefix`.
fn starts_with(s: &[u8], prefix: &[u8]) -> (r: bool)
    ensures
        r == (prefix@.len() <= s@.len() && s@.subrange(0, prefix@.len() as int) == prefix@),
{
    if prefix.len() > s.len() {
        return false;
    }
    let mut i: usize = 0;
    while i < prefix.len()
        invariant
            i <= prefix@.len() <= s@.len(),
            forall|j: int| 0 <= j < i ==> s@[j] == prefix@[j],
        decreases prefix@.len() - i,
    {
        if s[i] != prefix[i] {
            assert(s@.subrange(0, prefix@.len() as int)[i as int] != prefix@[i as int]);
            return false;
        }
        i = i + 1;
    }
    assert(s@.subrange(0, prefix@.len() as int) =~= prefix@);
    true
}

/// Distinct timestamps give distinct versioned keys.
pub proof fn lemma_versioned_key_injective(key: Seq<u8>, a: u64, b: u64)
    requires
        versioned_key(key, a) == versioned_key(key, b),
    ensures
        a == b,
{
    crate::endian::lemma_u64_round_trip(a);
    crate::endian::lemma_u64_round_trip(b);
    let n = key.len() as int;
    assert(versioned_key(key, a).subrange(n, n + 8) =~= crate::endian::be_u64(a));
    assert(versioned_key(key, b).subrange(n, n + 8) =~= crate::endian::be_u64(b));
}

/// A store's index: one shard per value of the first key byte modulo the shard count.
pub fn new_indexer(num: u8) -> (r: Vec<SkipList>)
    ensures
        r@.len() == num,
        forall|i: int| 0 <= i < num ==> #[trigger] r@[i]@ == Map::<Seq<u8>, RecordPosition>::empty(),
{
    let mut v: Vec<SkipList> = Vec::new();
    let mut i: u8 = 0;
    while i < num
        invariant
            i <= num,
            v@.len() == i,
            forall|j: int| 0 <= j < i ==> #[trigger] v@[j]@ == Map::<Seq<u8>, RecordPosition>::empty(),
        decreases num - i,
    {
        v.push(SkipList::new());
        i = i + 1;
    }
    v
}

} // verus!
