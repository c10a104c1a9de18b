use vstd::prelude::*;
use std::collections::HashMap;
use vstd::slice::slice_to_vec;
use vstd::string::StringExecFns;

use crate::datafile::DataFile;
use crate::error::Error;
use crate::endian::be_u32;
use crate::storage::record_in;
use crate::log_record::lemma_record_round_trip;
use crate::log_record::{
    encodable, encoded_len, merge_finish_key, record_bytes, BatchState, Record, RecordPosition,
    RecordType, RecordView,
};
use crate::storage::{
    ids_ascending, lemma_extend_refl, lemma_kv_kept, lemma_same_files_wf, Bitcask, DbFiles,
};
use crate::utils::get_merge_path;
use crate::consts::{DATA_FILE_SUFFIX, HINT_FILE_NAME, MERGE_FILE_NAME};
use crate::storage::next_of;
use vstd::string::StrSliceExecFns;

verus! {

broadcast use vstd::std_specs::hash::group_hash_axioms;

/// Rewrites the live records of a store into a fresh chain of data files.
pub struct MergeEngine {
    pub merge_path: String,
    pub max_file_size: usize,
    pub active_file: DataFile,
    pub old_files: HashMap<u32, DataFile>,
}

impl MergeEngine {
    /// The written bytes of the merged file with this id.
    pub open spec fn file_bytes(&self, id: u32) -> Option<Seq<u8>> {
        if id == self.active_file.id {
            Some(self.active_file.content().subrange(0, self.active_file.write_offset as int))
        } else if self.old_files@.contains_key(id) {
            Some(self.old_files@[id].content())
        } else {
            None
        }
    }

    /// The record found at `p` among the merged files.
    pub open spec fn record_at(&self, p: RecordPosition) -> Option<RecordView> {
        match self.file_bytes(p.file_id) {
            Some(c) => record_in(c, p),
            None => None,
        }
    }

    /// Whether a record of `len` bytes can be appended, as for the store's files.
    pub open spec fn can_append(&self, len: nat) -> bool {
        let rotate = self.active_file.write_offset + len > self.max_file_size;
        &&& len <= u32::MAX
        &&& rotate ==> self.active_file.id < u32::MAX
        &&& !rotate ==> self.active_file.write_offset + len <= usize::MAX
    }

    pub open spec fn wf(&self) -> bool {
        &&& self.active_file.wf()
        &&& forall|id: u32| #[trigger]
            self.old_files@.contains_key(id) ==> self.old_files@[id].wf() && self.old_files@[id].id
                == id && id < self.active_file.id
    }

    pub fn new(merge_path: &str, max_file_size: usize) -> (r: Result<Self, Error>)
        ensures
            r is Ok,
            r matches Ok(m) ==> m.active_file.write_offset == 0,
            r matches Ok(m) ==> (m.wf() && m.max_file_size == max_file_size && m.active_file.id == 0
                && m.old_files@.len() == 0),
    {
        let active_file = DataFile::empty_file(merge_path, 0);
        Ok(MergeEngine {
            merge_path: String::from_str(merge_path),
            max_file_size,
            active_file,
            old_files: HashMap::new(),
        })
    }

    /// Appends `record`, rotating first when it would take the active file past the
    /// maximum size.
    pub fn append_record(&mut self, record: &Record) -> (r: Result<RecordPosition, Error>)
        requires
            old(self).wf(),
            encodable(record@),
        ensures
            final(self).wf(),
            final(self).max_file_size == old(self).max_file_size,
            r is Ok <==> old(self).can_append(encoded_len(record@)),
            r is Err ==> r == Err::<RecordPosition, Error>(Error::IO) && *final(self) == *old(self),
            r matches Ok(pos) ==> (pos.size == encoded_len(record@) && pos.file_id
                == final(self).active_file.id && final(self).active_file.write_offset == pos.offset
                + pos.size && final(self).record_at(pos) == Some(record@)),
    {
        let record_size = record.get_encode_len();
        if record_size > u32::MAX as usize {
            return Err(Error::IO);
        }
        if self.active_file.write_offset as u128 + record_size as u128 > self.max_file_size as u128 {
            if self.active_file.id == u32::MAX {
                return Err(Error::IO);
            }
            let _ = self.active_file.sync();
            let mut prev = DataFile::empty_file(self.merge_path.as_str(), self.active_file.id + 1);
            std::mem::swap(&mut self.active_file, &mut prev);
            let prev_id = prev.id;
            self.old_files.insert(prev_id, prev);
        }
        if self.active_file.write_offset as u128 + record_size as u128 > usize::MAX as u128 {
            return Err(Error::IO);
        }
        let offset = self.active_file.write_offset;
        let ghost before = self.active_file.content().subrange(0, offset as int);
        let size = match self.active_file.write_record(record) {
            Ok(n) => n,
            Err(e) => return Err(e),
        };
        let pos = RecordPosition { file_id: self.active_file.id, offset, size };
        proof {
            lemma_record_round_trip(record@);
            let c = self.file_bytes(pos.file_id)->0;
            assert(c =~= before + record_bytes(record@));
            assert(c.subrange(pos.offset as int, pos.offset + pos.size) =~= record_bytes(record@));
        }
        Ok(pos)
    }

    pub fn sync(&mut self) -> (r: Result<(), Error>)
        requires
            old(self).wf(),
        ensures
            r is Ok,
            final(self).wf(),
    {
        self.active_file.sync()
    }

    /// The merged data files, in ascending id order.
    pub fn data_files(&self) -> (r: Vec<(u32, Vec<u8>)>)
        requires
            self.wf(),
        ensures
            ids_ascending(r@),
            forall|i: int| 0 <= i < r@.len() ==> self.file_bytes(#[trigger] r@[i].0) == Some(r@[i].1@),
            forall|id: u32| #[trigger] self.file_bytes(id) is Some ==> exists|i: int| 0 <= i < r@.len() && r@[i].0 == id,
    {
        let r = collect_files(&self.active_file, &self.old_files);
        proof {
            assert(forall|id: u32| #[trigger] self.file_bytes(id) == file_bytes_of(&self.active_file, self.old_files@, id));
        }
        r
    }
}

/// The written bytes of file `id` among an active file and its archived files.
pub open spec fn file_bytes_of(active_file: &DataFile, old_files: Map<u32, DataFile>, id: u32) -> Option<Seq<u8>> {
    if id == active_file.id {
        Some(active_file.content().subrange(0, active_file.write_offset as int))
    } else if old_files.contains_key(id) {
        Some(old_files[id].content())
    } else {
        None
    }
}

/// The files are consistent: archived files are well formed, under their own ids,
/// below the active one.
pub open spec fn files_wf_of(active_file: &DataFile, old_files: Map<u32, DataFile>) -> bool {
    &&& active_file.wf()
    &&& forall|id: u32| #[trigger]
        old_files.contains_key(id) ==> old_files[id].wf() && old_files[id].id == id && id < active_file.id
}

/// The bytes of an active file and its archived files, by ascending id.
pub fn collect_files(active_file: &DataFile, old_files: &HashMap<u32, DataFile>) -> (r: Vec<(u32, Vec<u8>)>)
    requires
        files_wf_of(active_file, old_files@),
    ensures
        ids_ascending(r@),
        forall|i: int| 0 <= i < r@.len() ==> file_bytes_of(active_file, old_files@, #[trigger] r@[i].0) == Some(r@[i].1@),
        forall|id: u32| #[trigger] file_bytes_of(active_file, old_files@, id) is Some ==> exists|i: int| 0 <= i < r@.len() && r@[i].0 == id,
{
    let mut out: Vec<(u32, Vec<u8>)> = Vec::new();
    let mut id: u32 = 0;
    while id < active_file.id
        invariant
            files_wf_of(active_file, old_files@),
            id <= active_file.id,
            ids_ascending(out@),
            forall|i: int| 0 <= i < out@.len() ==> #[trigger] out@[i].0 < id,
            forall|i: int| 0 <= i < out@.len() ==> file_bytes_of(active_file, old_files@, #[trigger] out@[i].0) == Some(out@[i].1@),
            forall|id2: u32| id2 < id && #[trigger] file_bytes_of(active_file, old_files@, id2) is Some ==> exists|i: int| 0 <= i < out@.len() && out@[i].0 == id2,
        decreases active_file.id - id,
    {
        let ghost before = out@;
        if let Some(f) = old_files.get(&id) {
            out.push((id, slice_to_vec(f.bytes())));
        }
        proof {
            assert forall|id2: u32| id2 < id + 1 && #[trigger] file_bytes_of(active_file, old_files@, id2) is Some implies exists|i: int| 0 <= i < out@.len() && out@[i].0 == id2 by {
                if id2 == id {
                    assert(out@[before.len() as int].0 == id2);
                } else {
                    let i = choose|i: int| 0 <= i < before.len() && before[i].0 == id2;
                    assert(out@[i].0 == id2);
                }
            }
        }
        id = id + 1;
    }
    let len = active_file.bytes().len();
    assert(active_file.write_offset <= len);
    let n = active_file.write_offset as usize;
    let ghost before = out@;
    out.push((id, slice_to_vec(vstd::slice::slice_subrange(active_file.bytes(), 0, n))));
    proof {
        assert(out@[before.len() as int].1@ == file_bytes_of(active_file, old_files@, id)->0);
        assert forall|id2: u32| #[trigger] file_bytes_of(active_file, old_files@, id2) is Some implies exists|i: int| 0 <= i < out@.len() && out@[i].0 == id2 by {
            if id2 == id {
                assert(out@[before.len() as int].0 == id2);
            } else {
                let i = choose|i: int| 0 <= i < before.len() && before[i].0 == id2;
                assert(out@[i].0 == id2);
            }
        }
    }
    out
}

/// What a finished merge leaves in the side directory.
pub struct MergeOutput {
    /// The rewritten live records.
    pub engine: MergeEngine,
    /// Each live key with the encoded position of its rewritten record.
    pub hint_file: DataFile,
    /// The record naming the first data file the merge did not cover.
    pub merge_file: DataFile,
    /// That file id.
    pub next_file_id: u32,
}

impl Bitcask {
    /// The files of the store, in ascending id order.
    pub fn data_files(&self) -> (r: Vec<(u32, Vec<u8>)>)
        requires
            self.wf(),
        ensures
            ids_ascending(r@),
            forall|i: int| 0 <= i < r@.len() ==> self.file_bytes(#[trigger] r@[i].0) == Some(r@[i].1@),
            forall|id: u32| #[trigger] self.file_bytes(id) is Some ==> exists|i: int| 0 <= i < r@.len() && r@[i].0 == id,
    {
        let r = collect_files(&self.active_file, &self.old_files);
        proof {
            assert(forall|id: u32| #[trigger] self.file_bytes(id) == file_bytes_of(&self.active_file, self.old_files@, id));
        }
        r
    }

    /// The directory contents as they stand: data files only.
    pub fn to_files(&self) -> (r: DbFiles)
        requires
            self.wf(),
        ensures
            ids_ascending(r.data_files@),
    {
        DbFiles { data_files: self.data_files(), hint_file: None, merge_file: None }
    }

    /// Rewrites the live record of every key into new files, with a hint file and a
    /// merge-finished record. The active file is first rotated so that writes can go
    /// on; the store's contents are unchanged. An empty store needs no merge.
    pub fn merge(&mut self) -> (r: Result<Option<MergeOutput>, Error>)
        requires
            old(self).wf(),
        ensures
            final(self).wf(),
            final(self).kv() == old(self).kv(),
            final(self).opts == old(self).opts,
            r matches Ok(Some(m)) ==> m.engine.wf(),
            r == Ok::<Option<MergeOutput>, Error>(None) <==> forall|k: Seq<u8>| #[trigger] old(self).index_entry(k) is None,
            r == Ok::<Option<MergeOutput>, Error>(None) ==> *final(self) == *old(self),
            r matches Err(e) ==> e == Error::IO,
            r matches Ok(Some(m)) ==> m.next_file_id == final(self).active_file.id,
            r matches Ok(Some(m)) ==> m.next_file_id == old(self).active_file.id + 1,
            r matches Ok(Some(m)) ==> m.merge_file.content() == record_bytes(
                RecordView {
                    record_type: RecordType::Normal,
                    batch_state: BatchState::Disable,
                    key: merge_finish_key(),
                    value: be_u32(m.next_file_id),
                },
            ),
    {
        if self.is_empty() {
            return Ok(None);
        }
        if self.active_file.id == u32::MAX {
            return Err(Error::IO);
        }
        let ghost before = *self;
        let merge_path = get_merge_path(self.opts.db_path.as_str());
        let _ = self.rotate_for_merge();
        proof {
            lemma_kv_kept(&before, self);
        }
        let mut engine = match MergeEngine::new(merge_path.as_str(), self.opts.max_file_size) {
            Ok(m) => m,
            Err(e) => return Err(e),
        };
        let mut hint_file = match DataFile::hint_file(merge_path.as_str()) {
            Ok(f) => f,
            Err(e) => return Err(e),
        };
        let last = self.active_file.id;
        let mut max_file_id: u32 = 0;
        let mut id: u32 = 0;
        while id < last
            invariant
                self.wf(),
                self.kv() == old(self).kv(),
                self.opts == old(self).opts,
                engine.wf(),
                hint_file.wf(),
                last == self.active_file.id,
                last >= 1,
                self.old_files@.contains_key((last - 1) as u32),
                id <= last,
                max_file_id < last,
                id > last - 1 ==> max_file_id == last - 1,
                !(forall|k: Seq<u8>| #[trigger] old(self).index_entry(k) is None),
            decreases last - id,
        {
            if self.old_files.get(&id).is_some() {
                match self.merge_file_records(id, &mut engine, &mut hint_file) {
                    Ok(()) => {},
                    Err(e) => return Err(e),
                }
                max_file_id = id;
            }
            id = id + 1;
        }
        let _ = hint_file.sync();
        let _ = engine.sync();
        let mut merge_file = match DataFile::merge_file(merge_path.as_str()) {
            Ok(f) => f,
            Err(e) => return Err(e),
        };
        if max_file_id == u32::MAX {
            return Err(Error::IO);
        }
        let next_file_id = max_file_id + 1;
        let record = Record::merge_finished(next_file_id);
        let _ = merge_file.write_record(&record);
        let _ = merge_file.sync();
        Ok(Some(MergeOutput { engine, hint_file, merge_file, next_file_id }))
    }

    /// Archives the active file so that a merge covers every file written so far.
    fn rotate_for_merge(&mut self) -> (r: Result<(), Error>)
        requires
            old(self).wf(),
            old(self).active_file.id < u32::MAX,
        ensures
            final(self).wf(),
            old(self).files_extend_to(final(self)),
            final(self).indexs == old(self).indexs,
            final(self).opts == old(self).opts,
            final(self).active_file.id == old(self).active_file.id + 1,
            final(self).old_files@.contains_key(old(self).active_file.id),
    {
        let r = self.rotate_active();
        assert(self.old_files@.dom().contains(old(self).active_file.id));
        r
    }

    /// Copies the live records of archived file `file_id` into `engine`, recording
    /// each in `hint_file`.
    fn merge_file_records(&self, file_id: u32, engine: &mut MergeEngine, hint_file: &mut DataFile) -> (r: Result<(), Error>)
        requires
            self.wf(),
            old(engine).wf(),
            old(hint_file).wf(),
        ensures
            final(engine).wf(),
            final(hint_file).wf(),
            r matches Err(e) ==> e == Error::IO,
    {
        let mut offset: u64 = 0;
        loop
            invariant
                self.wf(),
                engine.wf(),
                hint_file.wf(),
            decreases u64::MAX - offset,
        {
            let reader = match self.get_record_with_offset(file_id, offset) {
                Ok(rd) => rd,
                Err(_) => break,
            };
            let size = reader.size();
            if size as u64 > u64::MAX - offset || size == 0 {
                break;
            }
            let mut record = reader.to_record();
            let finished = match record.batch_state {
                BatchState::Finish(_) => true,
                _ => false,
            };
            if !finished && record.key.len() > 0 {
                let s = self.get_index(record.key.as_slice());
                if let Some(pos) = self.indexs[s].get(record.key.as_slice()) {
                    if pos.file_id == file_id && pos.offset == offset {
                        let _ = record.disable_batch();
                        proof {
                            crate::log_record::lemma_reader_bytes(&reader);
                        }
                        let merge_pos = match engine.append_record(&record) {
                            Ok(p) => p,
                            Err(e) => return Err(e),
                        };
                        let klen = record.key.len();
                        if klen as u128 + 38 > u32::MAX as u128
                            || hint_file.write_offset as u128 + klen as u128 + 38 > usize::MAX as u128 {
                            return Err(Error::IO);
                        }
                        let hint = Record::normal(record.key, merge_pos.encode());
                        let _ = hint_file.write_record(&hint);
                    }
                }
            }
            offset = offset + size as u64;
        }
        Ok(())
    }
}

impl DbFiles {
    /// Adopts a finished merge: data files below its next unmerged id give way to the
    /// merged files, and its hint and merge-finished files join the directory.
    pub fn adopt_merge(self, merged: &MergeOutput) -> (r: DbFiles)
        requires
            merged.engine.wf(),
        ensures
            r.hint_file matches Some(h) && h@ == merged.hint_file.content(),
            r.merge_file matches Some(m) && m@ == merged.merge_file.content(),
            forall|id: u32| #[trigger] merged.engine.file_bytes(id) is Some ==> exists|i: int|
                0 <= i < r.data_files@.len() && r.data_files@[i].0 == id && Some(r.data_files@[i].1@) == merged.engine.file_bytes(id),
            forall|j: int| 0 <= j < self.data_files@.len() && #[trigger] self.data_files@[j].0 >= merged.next_file_id ==> exists|i: int|
                0 <= i < r.data_files@.len() && r.data_files@[i].0 == self.data_files@[j].0 && r.data_files@[i].1@ == self.data_files@[j].1@,
            forall|i: int| 0 <= i < r.data_files@.len() ==> merged.engine.file_bytes(#[trigger] r.data_files@[i].0) == Some(r.data_files@[i].1@)
                || (r.data_files@[i].0 >= merged.next_file_id && exists|j: int| 0 <= j < self.data_files@.len() && self.data_files@[j].0 == r.data_files@[i].0 && self.data_files@[j].1@ == r.data_files@[i].1@),
    {
        let mut kept: Vec<(u32, Vec<u8>)> = merged.engine.data_files();
        let DbFiles { data_files, hint_file: _, merge_file: _ } = self;
        let ghost merged_part = kept@;
        let mut i: usize = 0;
        while i < data_files.len()
            invariant
                i <= data_files@.len(),
                data_files@ == self.data_files@,
                kept@.len() >= merged_part.len(),
                forall|x: int| 0 <= x < merged_part.len() ==> kept@[x] == merged_part[x],
                forall|x: int| 0 <= x < kept@.len() ==> merged.engine.file_bytes(#[trigger] kept@[x].0) == Some(kept@[x].1@)
                    || (kept@[x].0 >= merged.next_file_id && exists|j: int| 0 <= j < data_files@.len() && data_files@[j].0 == kept@[x].0 && data_files@[j].1@ == kept@[x].1@),
                forall|j: int| 0 <= j < i && #[trigger] data_files@[j].0 >= merged.next_file_id ==> exists|x: int|
                    0 <= x < kept@.len() && kept@[x].0 == data_files@[j].0 && kept@[x].1@ == data_files@[j].1@,
            decreases data_files@.len() - i,
        {
            let ghost before = kept@;
            if data_files[i].0 >= merged.next_file_id {
                kept.push((data_files[i].0, slice_to_vec(data_files[i].1.as_slice())));
            }
            proof {
                assert forall|j: int| 0 <= j < i + 1 && #[trigger] data_files@[j].0 >= merged.next_file_id implies exists|x: int|
                    0 <= x < kept@.len() && kept@[x].0 == data_files@[j].0 && kept@[x].1@ == data_files@[j].1@ by {
                    if j == i {
                        assert(kept@[before.len() as int].0 == data_files@[j].0);
                    } else {
                        let x = choose|x: int| 0 <= x < before.len() && before[x].0 == data_files@[j].0 && before[x].1@ == data_files@[j].1@;
                        assert(kept@[x] == before[x]);
                    }
                }
            }
            i = i + 1;
        }
        proof {
            assert forall|id: u32| #[trigger] merged.engine.file_bytes(id) is Some implies exists|x: int|
                0 <= x < kept@.len() && kept@[x].0 == id && Some(kept@[x].1@) == merged.engine.file_bytes(id) by {
                let x = choose|x: int| 0 <= x < merged_part.len() && merged_part[x].0 == id;
                assert(kept@[x] == merged_part[x]);
            }
        }
        DbFiles {
            data_files: kept,
            hint_file: Some(slice_to_vec(merged.hint_file.bytes())),
            merge_file: Some(slice_to_vec(merged.merge_file.bytes())),
        }
    }
}

/// What to do with a side directory that a merge left behind.
pub enum MergeAdoption {
    /// The merge did not finish: remove the side directory.
    Discard,
    /// The merge finished: delete the data files below `next_file_id`, then move
    /// `moves` into the store's directory.
    Adopt { next_file_id: u32, moves: Vec<String> },
}

/// A name a finished merge moves into the store: a data file, the hint file or the
/// merge-finished file.
pub open spec fn adopted_name(s: Seq<char>) -> bool {
    ||| (s.len() >= DATA_FILE_SUFFIX@.len() && s.subrange(s.len() - DATA_FILE_SUFFIX@.len(), s.len() as int)
        == DATA_FILE_SUFFIX@)
    ||| s == HINT_FILE_NAME@
    ||| s == MERGE_FILE_NAME@
}

/// Some string of `v` holds `s`.
pub open spec fn in_names(v: Seq<String>, s: Seq<char>) -> bool {
    exists|i: int| 0 <= i < v.len() && #[trigger] v[i]@ == s
}

/// Whether two strings hold the same characters.
fn str_eq(a: &str, b: &str) -> (r: bool)
    ensures
        r == (a@ == b@),
{
    let n = a.unicode_len();
    if n != b.unicode_len() {
        return false;
    }
    let mut i: usize = 0;
    while i < n
        invariant
            n == a@.len() == b@.len(),
            i <= n,
            forall|j: int| 0 <= j < i ==> a@[j] == b@[j],
        decreases n - i,
    {
        if a.get_char(i) != b.get_char(i) {
            return false;
        }
        i = i + 1;
    }
    assert(a@ =~= b@);
    true
}

fn is_adopted(name: &String) -> (r: bool)
    ensures
        r == adopted_name(name@),
{
    let s = name.as_str();
    let n = s.unicode_len();
    let k = DATA_FILE_SUFFIX.unicode_len();
    if n >= k && str_eq(s.substring_char(n - k, n), DATA_FILE_SUFFIX) {
        return true;
    }
    str_eq(s, HINT_FILE_NAME) || str_eq(s, MERGE_FILE_NAME)
}

/// Decides what to do with the side directory of a merge, given the names of its
/// entries and the bytes of its merge-finished file, if one could be read.
pub fn plan_merge_adoption(names: &Vec<String>, manifest: Option<Vec<u8>>) -> (r: Result<MergeAdoption, Error>)
    ensures
        !(exists|i: int| 0 <= i < names@.len() && #[trigger] names@[i]@ == MERGE_FILE_NAME@) ==> r matches Ok(
            MergeAdoption::Discard,
        ),
        (exists|i: int| 0 <= i < names@.len() && #[trigger] names@[i]@ == MERGE_FILE_NAME@) ==> match next_of(manifest) {
            Some(n) => r matches Ok(MergeAdoption::Adopt { next_file_id, moves }) && next_file_id == n
                && (forall|s: Seq<char>| #![trigger in_names(moves@, s)] #![trigger in_names(names@, s)]
                in_names(moves@, s) <==> in_names(names@, s) && adopted_name(s)),
            None => r matches Err(Error::Corrupt),
        },
{
    let mut finished = false;
    let mut moves: Vec<String> = Vec::new();
    let mut i: usize = 0;
    while i < names.len()
        invariant
            i <= names@.len(),
            finished == exists|j: int| 0 <= j < i && #[trigger] names@[j]@ == MERGE_FILE_NAME@,
            forall|s: Seq<char>| #![trigger in_names(moves@, s)] #![trigger in_names(names@.take(i as int), s)]
                in_names(moves@, s) <==> in_names(names@.take(i as int), s) && adopted_name(s),
        decreases names@.len() - i,
    {
        let ghost before = moves@;
        if str_eq(names[i].as_str(), MERGE_FILE_NAME) {
            finished = true;
        }
        if is_adopted(&names[i]) {
            moves.push(names[i].clone());
        }
        proof {
            assert forall|s: Seq<char>| #![trigger in_names(moves@, s)] #![trigger in_names(names@.take(i + 1), s)]
                in_names(moves@, s) <==> in_names(names@.take(i + 1), s) && adopted_name(s) by {
                let t0 = names@.take(i as int);
                let t1 = names@.take(i + 1);
                if in_names(moves@, s) {
                    let x = choose|x: int| 0 <= x < moves@.len() && #[trigger] moves@[x]@ == s;
                    if x < before.len() {
                        assert(in_names(before, s));
                        let j = choose|j: int| 0 <= j < t0.len() && #[trigger] t0[j]@ == s;
                        assert(t1[j] == t0[j]);
                    } else {
                        assert(t1[i as int]@ == s);
                    }
                }
                if in_names(t1, s) && adopted_name(s) {
                    let j = choose|j: int| 0 <= j < t1.len() && #[trigger] t1[j]@ == s;
                    if j < i {
                        assert(t0[j] == t1[j]);
                        assert(in_names(t0, s));
                        let x = choose|x: int| 0 <= x < before.len() && #[trigger] before[x]@ == s;
                        assert(moves@[x] == before[x]);
                    } else {
                        assert(moves@[before.len() as int]@ == s);
                    }
                }
            }
            assert(finished == exists|j: int| 0 <= j < i + 1 && #[trigger] names@[j]@ == MERGE_FILE_NAME@);
        }
        i = i + 1;
    }
    proof {
        assert(names@.take(i as int) =~= names@);
    }
    if !finished {
        return Ok(MergeAdoption::Discard);
    }
    let next = match manifest {
        Some(m) => crate::storage::next_unmerged_file_id(m.as_slice()),
        None => None,
    };
    match next {
        Some(n) => Ok(MergeAdoption::Adopt { next_file_id: n, moves }),
        None => Err(Error::Corrupt),
    }
}

} // verus!
