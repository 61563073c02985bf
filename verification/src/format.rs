//! Record codec: the fixed 28-byte header followed by raw key and value
//! bytes, with a CRC-32 integrity check over `timestamp ‖ key ‖ value`.
//!
//! All integers in the header are fixed-width big-endian: 4 bytes for the
//! checksum, 8 bytes each for the timestamp, the key length and the value
//! length, regardless of the host's word size.

use vstd::prelude::*;
use vstd::utf8::{valid_utf8, decode_utf8, encode_utf8};

verus! {

/// The CRC-32 digest (ISO-HDLC polynomial) of a byte sequence. The digest
/// is a function of the bytes alone; it is computed by the `crc` crate and
/// never written out as a formula here.
pub uninterp spec fn crc32_of(data: Seq<u8>) -> u32;

/// Relies on `crc::Crc::<u32>::new(&crc::CRC_32_ISO_HDLC).checksum`: the
/// digest depends on the input bytes alone.
#[verifier::external_body]
pub(crate) fn crc32(data: &[u8]) -> (r: u32)
    ensures
        r == crc32_of(data@),
{
    crc::Crc::<u32>::new(&crc::CRC_32_ISO_HDLC).checksum(data)
}

/// Relies on `alloc::string::String::from_utf8`: it succeeds exactly on
/// valid UTF-8 and the characters of the result are the decoding of the
/// input bytes.
#[verifier::external_body]
pub(crate) fn bytes_to_string(v: Vec<u8>) -> (r: Option<String>)
    ensures
        r is Some <==> valid_utf8(v@),
        r matches Some(s) ==> s@ == decode_utf8(v@),
{
    String::from_utf8(v).ok()
}

/// Big-endian bytes of a `u32`, most significant first.
pub open spec fn be32(x: u32) -> Seq<u8> {
    seq![
        ((x >> 24) & 0xff) as u8,
        ((x >> 16) & 0xff) as u8,
        ((x >> 8) & 0xff) as u8,
        (x & 0xff) as u8,
    ]
}

/// Big-endian bytes of a `u64`, most significant first.
pub open spec fn be64(x: u64) -> Seq<u8> {
    seq![
        ((x >> 56) & 0xff) as u8,
        ((x >> 48) & 0xff) as u8,
        ((x >> 40) & 0xff) as u8,
        ((x >> 32) & 0xff) as u8,
        ((x >> 24) & 0xff) as u8,
        ((x >> 16) & 0xff) as u8,
        ((x >> 8) & 0xff) as u8,
        (x & 0xff) as u8,
    ]
}

/// The `u32` read big-endian from four bytes.
pub open spec fn u32_of_be(b0: u8, b1: u8, b2: u8, b3: u8) -> u32 {
    ((b0 as u32) << 24) | ((b1 as u32) << 16) | ((b2 as u32) << 8) | (b3 as u32)
}

/// The `u64` read big-endian from eight bytes.
pub open spec fn u64_of_be(b0: u8, b1: u8, b2: u8, b3: u8, b4: u8, b5: u8, b6: u8, b7: u8) -> u64 {
    ((b0 as u64) << 56) | ((b1 as u64) << 48) | ((b2 as u64) << 40) | ((b3 as u64) << 32)
        | ((b4 as u64) << 24) | ((b5 as u64) << 16) | ((b6 as u64) << 8) | (b7 as u64)
}

/// The `u32` stored big-endian at offset `pos` of `b`.
pub open spec fn be32_at(b: Seq<u8>, pos: int) -> u32 {
    u32_of_be(b[pos], b[pos + 1], b[pos + 2], b[pos + 3])
}

/// The `u64` stored big-endian at offset `pos` of `b`.
pub open spec fn be64_at(b: Seq<u8>, pos: int) -> u64 {
    u64_of_be(b[pos], b[pos + 1], b[pos + 2], b[pos + 3], b[pos + 4], b[pos + 5], b[pos + 6],
        b[pos + 7])
}

/// Reading back the big-endian bytes of `x` yields `x`.
pub proof fn lemma_u32_be_round_trip(x: u32)
    ensures
        u32_of_be(
            ((x >> 24) & 0xff) as u8,
            ((x >> 16) & 0xff) as u8,
            ((x >> 8) & 0xff) as u8,
            (x & 0xff) as u8,
        ) == x,
{
    assert(((((x >> 24) & 0xff) as u8) as u32) << 24 | ((((x >> 16) & 0xff) as u8) as u32) << 16
        | ((((x >> 8) & 0xff) as u8) as u32) << 8 | (((x & 0xff) as u8) as u32) == x) by (bit_vector);
}

/// Reading back the big-endian bytes of `x` yields `x`.
pub proof fn lemma_u64_be_round_trip(x: u64)
    ensures
        u64_of_be(
            ((x >> 56) & 0xff) as u8,
            ((x >> 48) & 0xff) as u8,
            ((x >> 40) & 0xff) as u8,
            ((x >> 32) & 0xff) as u8,
            ((x >> 24) & 0xff) as u8,
            ((x >> 16) & 0xff) as u8,
            ((x >> 8) & 0xff) as u8,
            (x & 0xff) as u8,
        ) == x,
{
    assert(((((x >> 56) & 0xff) as u8) as u64) << 56 | ((((x >> 48) & 0xff) as u8) as u64) << 48
        | ((((x >> 40) & 0xff) as u8) as u64) << 40 | ((((x >> 32) & 0xff) as u8) as u64) << 32
        | ((((x >> 24) & 0xff) as u8) as u64) << 24 | ((((x >> 16) & 0xff) as u8) as u64) << 16
        | ((((x >> 8) & 0xff) as u8) as u64) << 8 | (((x & 0xff) as u8) as u64) == x)
        by (bit_vector);
}

/// Writing back the `u32` read from four bytes gives those bytes.
pub proof fn lemma_u32_of_be_bytes(b0: u8, b1: u8, b2: u8, b3: u8)
    ensures
        be32(u32_of_be(b0, b1, b2, b3)) =~= seq![b0, b1, b2, b3],
{
    let x = u32_of_be(b0, b1, b2, b3);
    assert({
        let y = ((b0 as u32) << 24) | ((b1 as u32) << 16) | ((b2 as u32) << 8) | (b3 as u32);
        ((y >> 24) & 0xff) as u8 == b0 && ((y >> 16) & 0xff) as u8 == b1 && ((y >> 8) & 0xff) as u8
            == b2 && (y & 0xff) as u8 == b3
    }) by (bit_vector);
}

/// Writing back the `u64` read from eight bytes gives those bytes.
pub proof fn lemma_u64_of_be_bytes(b0: u8, b1: u8, b2: u8, b3: u8, b4: u8, b5: u8, b6: u8, b7: u8)
    ensures
        be64(u64_of_be(b0, b1, b2, b3, b4, b5, b6, b7)) =~= seq![b0, b1, b2, b3, b4, b5, b6, b7],
{
    let x = u64_of_be(b0, b1, b2, b3, b4, b5, b6, b7);
    assert({
        let y = ((b0 as u64) << 56) | ((b1 as u64) << 48) | ((b2 as u64) << 40) | ((b3 as u64)
            << 32) | ((b4 as u64) << 24) | ((b5 as u64) << 16) | ((b6 as u64) << 8) | (b7 as u64);
        ((y >> 56) & 0xff) as u8 == b0 && ((y >> 48) & 0xff) as u8 == b1 && ((y >> 40) & 0xff) as u8
            == b2 && ((y >> 32) & 0xff) as u8 == b3 && ((y >> 24) & 0xff) as u8 == b4 && ((y >> 16)
            & 0xff) as u8 == b5 && ((y >> 8) & 0xff) as u8 == b6 && (y & 0xff) as u8 == b7
    }) by (bit_vector);
}

/// A `u64` whose eight big-endian bytes are all zero is zero.
pub proof fn lemma_u64_be_zero(x: u64)
    requires
        forall|i: int| 0 <= i < 8 ==> be64(x)[i] == 0u8,
    ensures
        x == 0,
{
    assert(be64(x)[0] == ((x >> 56) & 0xff) as u8);
    assert(be64(x)[7] == (x & 0xff) as u8);
    assert(((x >> 56) & 0xff) as u8 == 0 && ((x >> 48) & 0xff) as u8 == 0 && ((x >> 40) & 0xff)
        as u8 == 0 && ((x >> 32) & 0xff) as u8 == 0 && ((x >> 24) & 0xff) as u8 == 0 && ((x >> 16)
        & 0xff) as u8 == 0 && ((x >> 8) & 0xff) as u8 == 0 && (x & 0xff) as u8 == 0 ==> x == 0)
        by (bit_vector);
}

/// Appends the four big-endian bytes of `x` to `out`.
pub fn push_be32(out: &mut Vec<u8>, x: u32)
    ensures
        final(out)@ == old(out)@ + be32(x),
{
    out.push(((x >> 24) & 0xff) as u8);
    out.push(((x >> 16) & 0xff) as u8);
    out.push(((x >> 8) & 0xff) as u8);
    out.push((x & 0xff) as u8);
    assert(final(out)@ =~= old(out)@ + be32(x));
}

/// Appends the eight big-endian bytes of `x` to `out`.
pub fn push_be64(out: &mut Vec<u8>, x: u64)
    ensures
        final(out)@ == old(out)@ + be64(x),
{
    out.push(((x >> 56) & 0xff) as u8);
    out.push(((x >> 48) & 0xff) as u8);
    out.push(((x >> 40) & 0xff) as u8);
    out.push(((x >> 32) & 0xff) as u8);
    out.push(((x >> 24) & 0xff) as u8);
    out.push(((x >> 16) & 0xff) as u8);
    out.push(((x >> 8) & 0xff) as u8);
    out.push((x & 0xff) as u8);
    assert(final(out)@ =~= old(out)@ + be64(x));
}

/// Reads the big-endian `u32` at offset `pos` of `b`.
pub fn read_be32(b: &[u8], pos: usize) -> (x: u32)
    requires
        pos + 4 <= b@.len(),
    ensures
        x == be32_at(b@, pos as int),
{
    let x0 = b[pos] as u32;
    let x1 = b[pos + 1] as u32;
    let x2 = b[pos + 2] as u32;
    let x3 = b[pos + 3] as u32;
    (x0 << 24) | (x1 << 16) | (x2 << 8) | x3
}

/// Reads the big-endian `u64` at offset `pos` of `b`.
pub fn read_be64(b: &[u8], pos: usize) -> (x: u64)
    requires
        pos + 8 <= b@.len(),
    ensures
        x == be64_at(b@, pos as int),
{
    let x0 = b[pos] as u64;
    let x1 = b[pos + 1] as u64;
    let x2 = b[pos + 2] as u64;
    let x3 = b[pos + 3] as u64;
    let x4 = b[pos + 4] as u64;
    let x5 = b[pos + 5] as u64;
    let x6 = b[pos + 6] as u64;
    let x7 = b[pos + 7] as u64;
    (x0 << 56) | (x1 << 48) | (x2 << 40) | (x3 << 32) | (x4 << 24) | (x5 << 16) | (x6 << 8) | x7
}

/// The one failure the codec reports: the buffer does not hold a record.
/// A buffer is rejected when it is shorter than the 28-byte header, when it
/// is shorter than `28 + key_size + value_size`, or when the key or value
/// bytes are not valid UTF-8.
#[derive(Clone, Copy, Debug, PartialEq, Eq, Structural)]
pub enum StoreError {
    InvalidRecord,
}

/// The mathematical content of a record: the stored checksum, the write
/// timestamp, and the raw key and value bytes.
pub struct RecordView {
    pub crc: u32,
    pub timestamp: u64,
    pub key: Seq<u8>,
    pub value: Seq<u8>,
}

/// The domain the checksum is computed over: `timestamp ‖ key ‖ value`.
/// The size fields are deliberately excluded.
pub open spec fn crc_domain(timestamp: u64, key: Seq<u8>, value: Seq<u8>) -> Seq<u8> {
    be64(timestamp) + key + value
}

/// Whether the stored checksum matches the one computed over the record's
/// canonical domain.
pub open spec fn crc_matches(r: RecordView) -> bool {
    r.crc == crc32_of(crc_domain(r.timestamp, r.key, r.value))
}

/// The 28-byte header of a record: checksum, timestamp, key length and
/// value length, each big-endian.
pub open spec fn spec_header(r: RecordView) -> Seq<u8> {
    be32(r.crc) + be64(r.timestamp) + be64(r.key.len() as u64) + be64(r.value.len() as u64)
}

/// The full on-disk frame of a record: header, key bytes, value bytes.
pub open spec fn frame_bytes(r: RecordView) -> Seq<u8> {
    spec_header(r) + r.key + r.value
}

/// The byte length of a record's frame.
pub open spec fn frame_len(r: RecordView) -> int {
    28 + r.key.len() as int + r.value.len() as int
}

/// Decoding a buffer that starts with a record frame. Bytes after the
/// frame are ignored. `None` when the buffer is shorter than the header,
/// shorter than the stored sizes claim, or when key or value bytes are
/// not valid UTF-8. The checksum is read, not checked: checking is a
/// separate step.
pub open spec fn spec_decode(b: Seq<u8>) -> Option<RecordView> {
    if b.len() < 28 {
        None
    } else {
        let crc = be32_at(b, 0);
        let timestamp = be64_at(b, 4);
        let key_size = be64_at(b, 12) as int;
        let value_size = be64_at(b, 20) as int;
        if 28 + key_size + value_size > b.len() {
            None
        } else {
            let key = b.subrange(28, 28 + key_size);
            let value = b.subrange(28 + key_size, 28 + key_size + value_size);
            if valid_utf8(key) && valid_utf8(value) {
                Some(RecordView { crc, timestamp, key, value })
            } else {
                None
            }
        }
    }
}

/// Round trip: decoding the encoded frame of a record gives the record
/// back, for every record whose key and value are valid UTF-8 and whose
/// lengths fit the 8-byte size fields.
pub proof fn lemma_decode_of_frame(r: RecordView)
    requires
        valid_utf8(r.key),
        valid_utf8(r.value),
        r.key.len() < 0x1_0000_0000_0000_0000,
        r.value.len() < 0x1_0000_0000_0000_0000,
    ensures
        spec_decode(frame_bytes(r)) == Some(r),
{
    let b = frame_bytes(r);
    let kl = r.key.len() as int;
    let vl = r.value.len() as int;
    assert(b.len() == 28 + kl + vl);
    assert forall|i: int| 0 <= i < 4 implies b[i] == #[trigger] be32(r.crc)[i] by {}
    assert forall|i: int| 0 <= i < 8 implies b[4 + i] == #[trigger] be64(r.timestamp)[i] by {}
    assert forall|i: int| 0 <= i < 8 implies b[12 + i] == #[trigger] be64(r.key.len() as u64)[i] by {}
    assert forall|i: int| 0 <= i < 8 implies b[20 + i] == #[trigger] be64(r.value.len() as u64)[i] by {}
    lemma_u32_be_round_trip(r.crc);
    assert(be32_at(b, 0) == r.crc);
    lemma_u64_be_round_trip(r.timestamp);
    assert(be64_at(b, 4) == r.timestamp);
    lemma_u64_be_round_trip(r.key.len() as u64);
    assert(be64_at(b, 12) == r.key.len() as u64);
    lemma_u64_be_round_trip(r.value.len() as u64);
    assert(be64_at(b, 20) == r.value.len() as u64);
    assert(b.subrange(28, 28 + kl) =~= r.key);
    assert(b.subrange(28 + kl, 28 + kl + vl) =~= r.value);
}

/// Where a key's latest record lives: segment id, write timestamp, byte
/// offset of the first header byte, and the frame's total byte length.
#[derive(Clone, Copy, Debug, PartialEq, Eq, Structural)]
pub struct KeyEntry {
    pub file_id: u32,
    pub timestamp: u64,
    pub position: usize,
    pub total_size: usize,
}

impl KeyEntry {
    /// Builds an entry from its four fields.
    pub fn init(file_id: u32, timestamp: u64, position: usize, total_size: usize) -> (r: KeyEntry)
        ensures
            r == (KeyEntry { file_id, timestamp, position, total_size }),
    {
        KeyEntry { file_id, timestamp, position, total_size }
    }
}

/// A decoded record: checksum, timestamp, and the key and value strings.
#[derive(Debug)]
pub struct KeyValue {
    pub crc: u32,
    pub timestamp: u64,
    pub key: String,
    pub value: String,
}

impl View for KeyValue {
    type V = RecordView;

    open spec fn view(&self) -> RecordView {
        RecordView {
            crc: self.crc,
            timestamp: self.timestamp,
            key: encode_utf8(self.key@),
            value: encode_utf8(self.value@),
        }
    }
}

impl KeyValue {
    /// Builds a record from a timestamp, key and value, computing the
    /// checksum over the canonical domain.
    pub fn new(timestamp: u64, key: String, value: String) -> (r: KeyValue)
        ensures
            r.timestamp == timestamp,
            r.key@ == key@,
            r.value@ == value@,
            crc_matches(r@),
    {
        let mut domain: Vec<u8> = Vec::new();
        push_be64(&mut domain, timestamp);
        let mut kb = vstd::slice::slice_to_vec(key.as_str().as_bytes());
        domain.append(&mut kb);
        let mut vb = vstd::slice::slice_to_vec(value.as_str().as_bytes());
        domain.append(&mut vb);
        assert(domain@ =~= crc_domain(timestamp, encode_utf8(key@), encode_utf8(value@)));
        let crc = crc32(domain.as_slice());
        KeyValue { crc, timestamp, key, value }
    }

    /// Recomputes the checksum over `timestamp ‖ key ‖ value` and compares
    /// it with the stored one.
    pub fn verify(&self) -> (r: bool)
        ensures
            r == crc_matches(self@),
    {
        let mut domain: Vec<u8> = Vec::new();
        push_be64(&mut domain, self.timestamp);
        let mut kb = vstd::slice::slice_to_vec(self.key.as_str().as_bytes());
        domain.append(&mut kb);
        let mut vb = vstd::slice::slice_to_vec(self.value.as_str().as_bytes());
        domain.append(&mut vb);
        assert(domain@ =~= crc_domain(self@.timestamp, self@.key, self@.value));
        let c = crc32(domain.as_slice());
        self.crc == c
    }

    /// Encodes the 28-byte header.
    pub fn encode_header(&self) -> (r: Vec<u8>)
        ensures
            r@ == spec_header(self@),
    {
        let mut bytes: Vec<u8> = Vec::new();
        push_be32(&mut bytes, self.crc);
        push_be64(&mut bytes, self.timestamp);
        push_be64(&mut bytes, self.key.as_str().as_bytes().len() as u64);
        push_be64(&mut bytes, self.value.as_str().as_bytes().len() as u64);
        assert(bytes@ =~= spec_header(self@));
        bytes
    }

    /// Encodes the full frame: header, key bytes, value bytes.
    pub fn to_bytes(&self) -> (r: Vec<u8>)
        ensures
            r@ == frame_bytes(self@),
    {
        let mut bytes = self.encode_header();
        let mut kb = vstd::slice::slice_to_vec(self.key.as_str().as_bytes());
        bytes.append(&mut kb);
        let mut vb = vstd::slice::slice_to_vec(self.value.as_str().as_bytes());
        bytes.append(&mut vb);
        assert(bytes@ =~= frame_bytes(self@));
        bytes
    }

    /// Reads the four header fields. Fails exactly when the buffer is
    /// shorter than 28 bytes.
    pub fn decode_header(bytes: &[u8]) -> (r: Result<(u32, u64, u64, u64), StoreError>)
        ensures
            bytes@.len() >= 28 ==> r == Ok::<_, StoreError>(
                (be32_at(bytes@, 0), be64_at(bytes@, 4), be64_at(bytes@, 12), be64_at(bytes@, 20)),
            ),
            bytes@.len() < 28 ==> r == Err::<(u32, u64, u64, u64), _>(StoreError::InvalidRecord),
    {
        if bytes.len() < 28 {
            return Err(StoreError::InvalidRecord);
        }
        let crc = read_be32(bytes, 0);
        let timestamp = read_be64(bytes, 4);
        let key_size = read_be64(bytes, 12);
        let value_size = read_be64(bytes, 20);
        Ok((crc, timestamp, key_size, value_size))
    }

    /// Decodes a record from a buffer that starts with its frame. Succeeds
    /// exactly when `spec_decode` does, and then returns that record.
    pub fn from_bytes(bytes: &[u8]) -> (r: Result<KeyValue, StoreError>)
        ensures
            r matches Ok(kv) ==> spec_decode(bytes@) == Some(kv@),
            r is Err ==> spec_decode(bytes@) is None && r == Err::<KeyValue, _>(
                StoreError::InvalidRecord,
            ),
    {
        broadcast use vstd::utf8::decode_utf8_encode_utf8;

        let (crc, timestamp, key_size, value_size) = match Self::decode_header(bytes) {
            Ok(h) => h,
            Err(e) => {
                return Err(e);
            },
        };
        let rem = (bytes.len() - 28) as u64;
        if key_size > rem || value_size > rem - key_size {
            return Err(StoreError::InvalidRecord);
        }
        let ks = key_size as usize;
        let vs = value_size as usize;
        let key_bytes = vstd::slice::slice_subrange(bytes, 28, 28 + ks);
        let value_bytes = vstd::slice::slice_subrange(bytes, 28 + ks, 28 + ks + vs);
        let key = match bytes_to_string(vstd::slice::slice_to_vec(key_bytes)) {
            Some(s) => s,
            None => {
                return Err(StoreError::InvalidRecord);
            },
        };
        let value = match bytes_to_string(vstd::slice::slice_to_vec(value_bytes)) {
            Some(s) => s,
            None => {
                return Err(StoreError::InvalidRecord);
            },
        };
        Ok(KeyValue { crc, timestamp, key, value })
    }
}

} // verus!
