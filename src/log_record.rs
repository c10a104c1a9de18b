use vstd::prelude::*;
use vstd::slice::{slice_subrange, slice_to_vec};

use crate::endian::{
    be_u32, be_u64, get_u32, get_u64, lemma_u32_round_trip, lemma_u64_round_trip, put_slice,
    put_u32, put_u64, u32_of_be, u64_of_be,
};
use crate::error::Error;

verus! {

/// Where a record lies on disk: its file, its offset and its full encoded size.
#[derive(Clone, Copy, PartialEq, Eq, Debug, Structural)]
pub struct RecordPosition {
    pub file_id: u32,
    pub offset: u64,
    pub size: u32,
}

/// Big-endian `file_id`, `offset`, `size`: sixteen bytes.
pub open spec fn position_bytes(p: RecordPosition) -> Seq<u8> {
    be_u32(p.file_id) + be_u64(p.offset) + be_u32(p.size)
}

impl RecordPosition {
    pub fn new(file_id: u32, offset: u64, size: u32) -> (r: Self)
        ensures
            r == (RecordPosition { file_id, offset, size }),
    {
        RecordPosition { file_id, offset, size }
    }

    pub fn encode(&self) -> (r: Vec<u8>)
        ensures
            r@ == position_bytes(*self),
            r@.len() == 16,
    {
        let mut data: Vec<u8> = Vec::new();
        put_u32(&mut data, self.file_id);
        put_u64(&mut data, self.offset);
        put_u32(&mut data, self.size);
        proof {
            lemma_u32_round_trip(self.file_id);
            lemma_u64_round_trip(self.offset);
            lemma_u32_round_trip(self.size);
            assert(data@ =~= position_bytes(*self));
        }
        data
    }

    pub fn decode(data: &[u8]) -> (r: Self)
        requires
            data@.len() >= 16,
        ensures
            r.file_id == u32_of_be(data@.subrange(0, 4)),
            r.offset == u64_of_be(data@.subrange(4, 12)),
            r.size == u32_of_be(data@.subrange(12, 16)),
    {
        let file_id = get_u32(data, 0);
        let offset = get_u64(data, 4);
        let size = get_u32(data, 12);
        RecordPosition { file_id, offset, size }
    }
}

/// Decoding an encoded position gives it back.
pub proof fn lemma_position_round_trip(p: RecordPosition)
    ensures
        position_bytes(p).len() == 16,
        u32_of_be(position_bytes(p).subrange(0, 4)) == p.file_id,
        u64_of_be(position_bytes(p).subrange(4, 12)) == p.offset,
        u32_of_be(position_bytes(p).subrange(12, 16)) == p.size,
{
    lemma_u32_round_trip(p.file_id);
    lemma_u64_round_trip(p.offset);
    lemma_u32_round_trip(p.size);
    let b = position_bytes(p);
    assert(b.subrange(0, 4) =~= be_u32(p.file_id));
    assert(b.subrange(4, 12) =~= be_u64(p.offset));
    assert(b.subrange(12, 16) =~= be_u32(p.size));
}

#[derive(Clone, Copy, PartialEq, Eq, Debug, Structural)]
pub enum RecordType {
    Deleted,
    Normal,
}

/// Whether a record belongs to a batch, and which.
#[derive(Clone, Copy, PartialEq, Eq, Debug, Structural)]
pub enum BatchState {
    Enable(u64),
    Finish(u64),
    Disable,
}

/// A log entry.
pub struct Record {
    pub record_type: RecordType,
    pub key: Vec<u8>,
    pub value: Vec<u8>,
    pub batch_state: BatchState,
}

/// A log entry as a value.
pub struct RecordView {
    pub record_type: RecordType,
    pub batch_state: BatchState,
    pub key: Seq<u8>,
    pub value: Seq<u8>,
}

impl View for Record {
    type V = RecordView;

    open spec fn view(&self) -> RecordView {
        RecordView {
            record_type: self.record_type,
            batch_state: self.batch_state,
            key: self.key@,
            value: self.value@,
        }
    }
}

/// The key of a batch's closing record.
pub open spec fn batch_finish_key() -> Seq<u8> {
    seq![66u8, 70u8]
}

/// The key of the record that ends a merge.
pub open spec fn merge_finish_key() -> Seq<u8> {
    seq![77u8, 70u8]
}

pub open spec fn type_byte(t: RecordType) -> u8 {
    match t {
        RecordType::Deleted => 0u8,
        RecordType::Normal => 1u8,
    }
}

pub open spec fn batch_bytes(b: BatchState) -> Seq<u8> {
    match b {
        BatchState::Enable(seq) => seq![0u8] + be_u64(seq),
        BatchState::Finish(seq) => seq![1u8] + be_u64(seq),
        BatchState::Disable => seq![2u8],
    }
}

/// Length of the fixed part before the key length: size, type and batch descriptor.
pub open spec fn header_len(b: BatchState) -> nat {
    match b {
        BatchState::Disable => 10,
        _ => 18,
    }
}

/// Full encoded length of a record, length prefix and checksum included.
pub open spec fn encoded_len(r: RecordView) -> nat {
    header_len(r.batch_state) + 8 + r.key.len() + r.value.len() + 4
}

/// A record can be encoded: its lengths fit their fields.
pub open spec fn encodable(r: RecordView) -> bool {
    &&& r.key.len() <= u32::MAX
    &&& r.value.len() <= u32::MAX
    &&& encoded_len(r) <= usize::MAX
}

/// Every byte of the encoding but the trailing checksum.
pub open spec fn record_body(r: RecordView) -> Seq<u8> {
    be_u64(encoded_len(r) as u64) + seq![type_byte(r.record_type)] + batch_bytes(r.batch_state)
        + be_u32(r.key.len() as u32) + be_u32(r.value.len() as u32) + r.key + r.value
}

/// The CRC-32 of a byte string.
pub uninterp spec fn crc32_of(b: Seq<u8>) -> u32;

/// The encoding of a record: its body followed by the body's CRC-32.
pub open spec fn record_bytes(r: RecordView) -> Seq<u8> {
    record_body(r) + be_u32(crc32_of(record_body(r)))
}

/// The record that `b` encodes, if `b` is exactly one well-formed encoding.
pub open spec fn decode_spec(b: Seq<u8>) -> Option<RecordView> {
    let n = b.len();
    if n < 22 {
        None
    } else if u32_of_be(b.subrange(n - 4, n as int)) != crc32_of(b.subrange(0, n - 4)) {
        None
    } else if u64_of_be(b.subrange(0, 8)) != n {
        None
    } else if b[8] != 0u8 && b[8] != 1u8 {
        None
    } else if b[9] > 2u8 || (b[9] != 2u8 && n < 30) {
        None
    } else {
        let record_type = if b[8] == 0u8 {
            RecordType::Deleted
        } else {
            RecordType::Normal
        };
        let batch_state = if b[9] == 0u8 {
            BatchState::Enable(u64_of_be(b.subrange(10, 18)))
        } else if b[9] == 1u8 {
            BatchState::Finish(u64_of_be(b.subrange(10, 18)))
        } else {
            BatchState::Disable
        };
        let h = header_len(batch_state) as int;
        let klen = u32_of_be(b.subrange(h, h + 4)) as int;
        let vlen = u32_of_be(b.subrange(h + 4, h + 8)) as int;
        if h + 8 + klen + vlen + 4 != n {
            None
        } else {
            Some(
                RecordView {
                    record_type,
                    batch_state,
                    key: b.subrange(h + 8, h + 8 + klen),
                    value: b.subrange(h + 8 + klen, h + 8 + klen + vlen),
                },
            )
        }
    }
}

/// Decoding the encoding of a record gives the record back.
pub proof fn lemma_record_round_trip(r: RecordView)
    requires
        encodable(r),
    ensures
        record_bytes(r).len() == encoded_len(r),
        decode_spec(record_bytes(r)) == Some(r),
{
    let body = record_body(r);
    let b = record_bytes(r);
    let n = encoded_len(r);
    let h = header_len(r.batch_state) as int;
    let klen = r.key.len() as int;
    let vlen = r.value.len() as int;
    lemma_u64_round_trip(n as u64);
    lemma_u32_round_trip(klen as u32);
    lemma_u32_round_trip(vlen as u32);
    lemma_u32_round_trip(crc32_of(body));
    match r.batch_state {
        BatchState::Enable(s) => lemma_u64_round_trip(s),
        BatchState::Finish(s) => lemma_u64_round_trip(s),
        BatchState::Disable => {},
    }
    assert(batch_bytes(r.batch_state).len() == h - 9);
    assert(body.len() == n - 4);
    assert(b.len() == n);
    assert(b.subrange(0, n - 4) =~= body);
    assert(b.subrange(n - 4, n as int) =~= be_u32(crc32_of(body)));
    assert(b.subrange(0, 8) =~= be_u64(n as u64));
    assert(b[8] == type_byte(r.record_type));
    assert(b[9] == batch_bytes(r.batch_state)[0]);
    match r.batch_state {
        BatchState::Enable(s) => {
            assert(b.subrange(10, 18) =~= be_u64(s));
        },
        BatchState::Finish(s) => {
            assert(b.subrange(10, 18) =~= be_u64(s));
        },
        BatchState::Disable => {},
    }
    assert(b.subrange(h, h + 4) =~= be_u32(klen as u32));
    assert(b.subrange(h + 4, h + 8) =~= be_u32(vlen as u32));
    assert(b.subrange(h + 8, h + 8 + klen) =~= r.key);
    assert(b.subrange(h + 8 + klen, h + 8 + klen + vlen) =~= r.value);
}

/// Relies on crc32fast's `Hasher`: the CRC-32 of `buf`, which depends on its bytes alone.
#[verifier::external_body]
pub fn get_crc_32(buf: &[u8]) -> (r: u32)
    ensures
        r == crc32_of(buf@),
{
    let mut hasher = crc32fast::Hasher::new();
    hasher.update(buf);
    hasher.finalize()
}

impl Record {
    pub fn normal(key: Vec<u8>, value: Vec<u8>) -> (r: Self)
        ensures
            r@ == (RecordView {
                record_type: RecordType::Normal,
                batch_state: BatchState::Disable,
                key: key@,
                value: value@,
            }),
    {
        Record { key, value, record_type: RecordType::Normal, batch_state: BatchState::Disable }
    }

    pub fn deleted(key: Vec<u8>) -> (r: Self)
        ensures
            r@ == (RecordView {
                record_type: RecordType::Deleted,
                batch_state: BatchState::Disable,
                key: key@,
                value: Seq::empty(),
            }),
    {
        Record {
            key,
            value: Vec::new(),
            record_type: RecordType::Deleted,
            batch_state: BatchState::Disable,
        }
    }

    pub fn batch_finished(seq: u64) -> (r: Self)
        ensures
            r@ == (RecordView {
                record_type: RecordType::Normal,
                batch_state: BatchState::Finish(seq),
                key: batch_finish_key(),
                value: Seq::empty(),
            }),
    {
        let key = vec![66u8, 70u8];
        assert(key@ =~= batch_finish_key());
        Record {
            key,
            value: Vec::new(),
            record_type: RecordType::Normal,
            batch_state: BatchState::Finish(seq),
        }
    }

    pub fn merge_finished(next_unmerged_file_id: u32) -> (r: Self)
        ensures
            r@ == (RecordView {
                record_type: RecordType::Normal,
                batch_state: BatchState::Disable,
                key: merge_finish_key(),
                value: be_u32(next_unmerged_file_id),
            }),
    {
        let key = vec![77u8, 70u8];
        assert(key@ =~= merge_finish_key());
        let mut value: Vec<u8> = Vec::new();
        put_u32(&mut value, next_unmerged_file_id);
        assert(value@ =~= be_u32(next_unmerged_file_id));
        Record::normal(key, value)
    }

    pub fn get_encode_len(&self) -> (r: usize)
        requires
            encodable(self@),
        ensures
            r == encoded_len(self@),
    {
        let fixed: usize = match self.batch_state {
            BatchState::Disable => 22,
            _ => 30,
        };
        fixed + self.key.len() + self.value.len()
    }

    pub fn encode(&self) -> (r: Vec<u8>)
        requires
            encodable(self@),
        ensures
            r@ == record_bytes(self@),
            r@.len() == encoded_len(self@),
    {
        let size = self.get_encode_len();
        let mut buf: Vec<u8> = Vec::new();
        put_u64(&mut buf, size as u64);
        let t: u8 = match self.record_type {
            RecordType::Deleted => 0,
            RecordType::Normal => 1,
        };
        buf.push(t);
        match self.batch_state {
            BatchState::Enable(seq) => {
                buf.push(0u8);
                put_u64(&mut buf, seq);
            },
            BatchState::Finish(seq) => {
                buf.push(1u8);
                put_u64(&mut buf, seq);
            },
            BatchState::Disable => {
                buf.push(2u8);
            },
        }
        put_u32(&mut buf, self.key.len() as u32);
        put_u32(&mut buf, self.value.len() as u32);
        put_slice(&mut buf, self.key.as_slice());
        put_slice(&mut buf, self.value.as_slice());
        assert(buf@ =~= record_body(self@));
        let crc = get_crc_32(buf.as_slice());
        put_u32(&mut buf, crc);
        proof {
            lemma_record_round_trip(self@);
        }
        buf
    }

    pub fn enable_batch(&mut self, seq: u64) -> (r: Result<(), Error>)
        ensures
            r is Ok,
            final(self)@ == (RecordView { batch_state: BatchState::Enable(seq), ..old(self)@ }),
    {
        self.batch_state = BatchState::Enable(seq);
        Ok(())
    }

    pub fn disable_batch(&mut self) -> (r: Result<(), Error>)
        ensures
            r is Ok,
            final(self)@ == (RecordView { batch_state: BatchState::Disable, ..old(self)@ }),
    {
        self.batch_state = BatchState::Disable;
        Ok(())
    }
}

/// The record stored at `offset` of a file holding `file`: its eight-byte length
/// prefix gives its extent, which must be non-zero and lie inside the file.
pub open spec fn read_at_spec(file: Seq<u8>, offset: int) -> Option<RecordView> {
    if 0 <= offset && offset + 8 <= file.len() {
        let size = u64_of_be(file.subrange(offset, offset + 8)) as int;
        if size > 0 && offset + size <= file.len() {
            decode_spec(file.subrange(offset, offset + size))
        } else {
            None
        }
    } else {
        None
    }
}

/// The length prefix of the record at `offset`.
pub open spec fn size_at(file: Seq<u8>, offset: int) -> int {
    u64_of_be(file.subrange(offset, offset + 8)) as int
}

/// A decoded record, backed by its own bytes.
pub struct RecordReader {
    data: Vec<u8>,
    key_value_start: u32,
    key_size: u32,
    value_size: u32,
    record_type: RecordType,
    batch_state: BatchState,
}

impl View for RecordReader {
    type V = RecordView;

    closed spec fn view(&self) -> RecordView {
        RecordView {
            record_type: self.record_type,
            batch_state: self.batch_state,
            key: self.data@.subrange(
                self.key_value_start as int,
                self.key_value_start + self.key_size,
            ),
            value: self.data@.subrange(
                self.key_value_start + self.key_size,
                self.key_value_start + self.key_size + self.value_size,
            ),
        }
    }
}

impl RecordReader {
    /// The bytes the record was decoded from.
    pub closed spec fn bytes(&self) -> Seq<u8> {
        self.data@
    }

    pub closed spec fn wf(&self) -> bool {
        &&& self.key_value_start + self.key_size + self.value_size + 4 == self.data@.len()
        &&& self.data@.len() <= usize::MAX
        &&& decode_spec(self.data@) == Some(self@)
    }

    /// Reads the record at `offset` of the file contents `io`.
    pub fn decode(io: &[u8], offset: u64) -> (r: Result<Self, Error>)
        ensures
            match r {
                Ok(rd) => {
                    &&& rd.wf()
                    &&& read_at_spec(io@, offset as int) == Some(rd@)
                    &&& rd.bytes().len() == size_at(io@, offset as int)
                },
                Err(e) => e == Error::Corrupt && read_at_spec(io@, offset as int) is None,
            },
    {
        let len = io.len();
        if offset > len as u64 || len as u64 - offset < 8 {
            return Err(Error::Corrupt);
        }
        let start = offset as usize;
        let size = get_u64(io, start);
        if size == 0 || size > (len - start) as u64 {
            return Err(Error::Corrupt);
        }
        let end = start + size as usize;
        let data = slice_to_vec(slice_subrange(io, start, end));
        Self::decode_from_vec(data)
    }

    /// Decodes one whole record from `buf`.
    pub fn decode_from_vec(buf: Vec<u8>) -> (r: Result<Self, Error>)
        ensures
            match r {
                Ok(rd) => rd.wf() && rd.bytes() == buf@ && decode_spec(buf@) == Some(rd@),
                Err(e) => e == Error::Corrupt && decode_spec(buf@) is None,
            },
    {
        let n = buf.len();
        if n < 22 {
            return Err(Error::Corrupt);
        }
        let checksum = get_u32(buf.as_slice(), n - 4);
        let crc = get_crc_32(slice_subrange(buf.as_slice(), 0, n - 4));
        if checksum != crc {
            return Err(Error::Corrupt);
        }
        let size = get_u64(buf.as_slice(), 0);
        if size != n as u64 {
            return Err(Error::Corrupt);
        }
        let t = buf[8];
        let record_type = if t == 0 {
            RecordType::Deleted
        } else if t == 1 {
            RecordType::Normal
        } else {
            return Err(Error::Corrupt);
        };
        let tag = buf[9];
        if tag > 2 || (tag != 2 && n < 30) {
            return Err(Error::Corrupt);
        }
        let (batch_state, h) = if tag == 0 {
            (BatchState::Enable(get_u64(buf.as_slice(), 10)), 18usize)
        } else if tag == 1 {
            (BatchState::Finish(get_u64(buf.as_slice(), 10)), 18usize)
        } else {
            (BatchState::Disable, 10usize)
        };
        let key_len = get_u32(buf.as_slice(), h);
        let value_len = get_u32(buf.as_slice(), h + 4);
        if h as u64 + 8 + key_len as u64 + value_len as u64 + 4 != n as u64 {
            return Err(Error::Corrupt);
        }
        let rd = RecordReader {
            data: buf,
            key_value_start: (h + 8) as u32,
            key_size: key_len,
            value_size: value_len,
            record_type,
            batch_state,
        };
        Ok(rd)
    }

    pub fn key(&self) -> (r: &[u8])
        requires
            self.wf(),
        ensures
            r@ == self@.key,
    {
        let _n = self.data.len();
        let start = self.key_value_start as usize;
        slice_subrange(self.data.as_slice(), start, start + self.key_size as usize)
    }

    pub fn value(&self) -> (r: &[u8])
        requires
            self.wf(),
        ensures
            r@ == self@.value,
    {
        let _n = self.data.len();
        let start = self.key_value_start as usize + self.key_size as usize;
        slice_subrange(self.data.as_slice(), start, start + self.value_size as usize)
    }

    pub fn record_type(&self) -> (r: RecordType)
        ensures
            r == self@.record_type,
    {
        self.record_type
    }

    pub fn batch_state(&self) -> (r: BatchState)
        ensures
            r == self@.batch_state,
    {
        self.batch_state
    }

    /// The full encoded size of the record.
    pub fn size(&self) -> (r: usize)
        ensures
            r == self.bytes().len(),
    {
        self.data.len()
    }

    pub fn to_record(&self) -> (r: Record)
        requires
            self.wf(),
        ensures
            r@ == self@,
    {
        Record {
            record_type: self.record_type,
            key: slice_to_vec(self.key()),
            value: slice_to_vec(self.value()),
            batch_state: self.batch_state,
        }
    }
}

/// A well-formed reader holds exactly the encoding of its record.
pub proof fn lemma_reader_bytes(rd: &RecordReader)
    requires
        rd.wf(),
    ensures
        encodable(rd@),
        record_bytes(rd@) == rd.bytes(),
        encoded_len(rd@) == rd.bytes().len(),
{
    lemma_decode_encodes(rd.bytes());
    lemma_record_round_trip(rd@);
}

/// Whatever decodes is the encoding of what it decodes to.
pub proof fn lemma_decode_encodes(b: Seq<u8>)
    requires
        decode_spec(b) is Some,
        b.len() <= usize::MAX,
    ensures
        encodable(decode_spec(b)->0),
        record_bytes(decode_spec(b)->0) == b,
{
    let r = decode_spec(b)->0;
    let n = b.len() as int;
    let h = header_len(r.batch_state) as int;
    let klen = r.key.len() as int;
    let vlen = r.value.len() as int;
    assert(klen == u32_of_be(b.subrange(h, h + 4)));
    assert(vlen == u32_of_be(b.subrange(h + 4, h + 8)));
    assert(encoded_len(r) == n);
    lemma_be_u32_of(b.subrange(h, h + 4));
    lemma_be_u32_of(b.subrange(h + 4, h + 8));
    lemma_be_u64_of(b.subrange(0, 8));
    lemma_be_u32_of(b.subrange(n - 4, n));
    match r.batch_state {
        BatchState::Enable(s) => lemma_be_u64_of(b.subrange(10, 18)),
        BatchState::Finish(s) => lemma_be_u64_of(b.subrange(10, 18)),
        BatchState::Disable => {},
    }
    assert(record_body(r) =~= b.subrange(0, n - 4));
    assert(record_bytes(r) =~= b);
}

pub proof fn lemma_be_u64_of(s: Seq<u8>)
    requires
        s.len() == 8,
    ensures
        be_u64(u64_of_be(s)) == s,
{
    let (b0, b1, b2, b3) = (s[0], s[1], s[2], s[3]);
    let (b4, b5, b6, b7) = (s[4], s[5], s[6], s[7]);
    let x = u64_of_be(s);
    assert(x == ((b0 as u64) << 56u64) | ((b1 as u64) << 48u64) | ((b2 as u64) << 40u64) | ((
    b3 as u64) << 32u64) | ((b4 as u64) << 24u64) | ((b5 as u64) << 16u64) | ((b6 as u64)
        << 8u64) | (b7 as u64));
    assert(b0 == (x >> 56u64) as u8 && b1 == (x >> 48u64) as u8 && b2 == (x >> 40u64) as u8
        && b3 == (x >> 32u64) as u8 && b4 == (x >> 24u64) as u8 && b5 == (x >> 16u64) as u8
        && b6 == (x >> 8u64) as u8 && b7 == x as u8) by (bit_vector)
        requires
            x == ((b0 as u64) << 56u64) | ((b1 as u64) << 48u64) | ((b2 as u64) << 40u64) | ((
            b3 as u64) << 32u64) | ((b4 as u64) << 24u64) | ((b5 as u64) << 16u64) | ((
            b6 as u64) << 8u64) | (b7 as u64),
    ;
    assert(be_u64(x) =~= s);
}

pub proof fn lemma_be_u32_of(s: Seq<u8>)
    requires
        s.len() == 4,
    ensures
        be_u32(u32_of_be(s)) == s,
{
    let (b0, b1, b2, b3) = (s[0], s[1], s[2], s[3]);
    let x = u32_of_be(s);
    assert(x == ((b0 as u32) << 24u32) | ((b1 as u32) << 16u32) | ((b2 as u32) << 8u32) | (
    b3 as u32));
    assert(b0 == (x >> 24u32) as u8 && b1 == (x >> 16u32) as u8 && b2 == (x >> 8u32) as u8 && b3
        == x as u8) by (bit_vector)
        requires
            x == ((b0 as u32) << 24u32) | ((b1 as u32) << 16u32) | ((b2 as u32) << 8u32) | (
            b3 as u32),
    ;
    assert(be_u32(x) =~= s);
}

} // verus!
