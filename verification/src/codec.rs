//! The byte layout of keys, sample counts and samples on the wire. Every
//! number is big-endian.
use vstd::prelude::*;
use vstd::utf8::{decode_utf8, encode_utf8, valid_utf8};

use crate::{MetricKey, Sample, SAMPLE_SIZE};

verus! {

/// Why a run of bytes could not be decoded.
#[derive(Debug, Clone, Copy, PartialEq, Eq, Structural)]
pub enum DecodeError {
    /// The bytes end before what they announce.
    Truncated,
    /// The key bytes are not UTF-8.
    MalformedFrame,
}

/// The two bytes of a 16-bit number, most significant first.
pub open spec fn be16(x: u16) -> Seq<u8> {
    seq![(x / 0x100) as u8, (x % 0x100) as u8]
}

/// The 16-bit number that the first two bytes of `b` spell.
pub open spec fn from_be16(b: Seq<u8>) -> u16 {
    (b[0] * 0x100 + b[1]) as u16
}

/// The four bytes of a 32-bit number, most significant first.
pub open spec fn be32(x: u32) -> Seq<u8> {
    be16((x / 0x1_0000) as u16) + be16((x % 0x1_0000) as u16)
}

/// The 32-bit number that the first four bytes of `b` spell.
pub open spec fn from_be32(b: Seq<u8>) -> u32 {
    (from_be16(b.subrange(0, 2)) * 0x1_0000 + from_be16(b.subrange(2, 4))) as u32
}

/// The eight bytes of a 64-bit number, most significant first.
pub open spec fn be64(x: u64) -> Seq<u8> {
    be32((x / 0x1_0000_0000) as u32) + be32((x % 0x1_0000_0000) as u32)
}

/// The 64-bit number that the first eight bytes of `b` spell.
pub open spec fn from_be64(b: Seq<u8>) -> u64 {
    (from_be32(b.subrange(0, 4)) * 0x1_0000_0000 + from_be32(b.subrange(4, 8))) as u64
}

/// A sample on the wire: its time, then the bits of its value.
#[verifier::opaque]
pub open spec fn sample_encoded(sample: Sample) -> Seq<u8> {
    be64(sample.time) + be64(sample.value)
}

/// The sample that the first sixteen bytes of `b` spell.
#[verifier::opaque]
pub open spec fn sample_decoded(b: Seq<u8>) -> Sample {
    Sample { time: from_be64(b.subrange(0, 8)), value: from_be64(b.subrange(8, 16)) }
}

/// Whether a key is short enough for its length to fit the 16-bit prefix.
pub open spec fn key_fits(key: Seq<char>) -> bool {
    encode_utf8(key).len() <= 0xffff
}

/// A key on the wire: the number of its bytes, then its bytes.
pub open spec fn key_encoded(key: Seq<char>) -> Seq<u8> {
    be16(encode_utf8(key).len() as u16) + encode_utf8(key)
}

/// What decoding a key from the start of `b` gives: the key and the number of
/// bytes it took, or the reason why there is none.
pub open spec fn key_decoded(b: Seq<u8>) -> Result<(Seq<char>, nat), DecodeError> {
    if b.len() < 2 {
        Err(DecodeError::Truncated)
    } else {
        let end = 2 + from_be16(b);
        if b.len() < end {
            Err(DecodeError::Truncated)
        } else if !valid_utf8(b.subrange(2, end)) {
            Err(DecodeError::MalformedFrame)
        } else {
            Ok((decode_utf8(b.subrange(2, end)), end as nat))
        }
    }
}

/// Encoding a 16-bit number and decoding it gives the number back.
pub proof fn lemma_be16_round_trip(x: u16)
    ensures
        be16(x).len() == 2,
        from_be16(be16(x)) == x,
{
}

/// Decoding two bytes and encoding the number gives the bytes back.
pub proof fn lemma_be16_bytes(b: Seq<u8>)
    requires
        b.len() == 2,
    ensures
        be16(from_be16(b)) == b,
{
    assert(be16(from_be16(b)) =~= b);
}

/// Encoding a 32-bit number and decoding it gives the number back.
pub proof fn lemma_be32_round_trip(x: u32)
    ensures
        be32(x).len() == 4,
        from_be32(be32(x)) == x,
{
    let hi = (x / 0x1_0000) as u16;
    let lo = (x % 0x1_0000) as u16;
    assert(be32(x).subrange(0, 2) =~= be16(hi));
    assert(be32(x).subrange(2, 4) =~= be16(lo));
    lemma_be16_round_trip(hi);
    lemma_be16_round_trip(lo);
}

/// Decoding four bytes and encoding the number gives the bytes back.
pub proof fn lemma_be32_bytes(b: Seq<u8>)
    requires
        b.len() == 4,
    ensures
        be32(from_be32(b)) == b,
{
    let hi = from_be16(b.subrange(0, 2));
    let lo = from_be16(b.subrange(2, 4));
    let x = from_be32(b);
    assert(x == hi * 0x1_0000 + lo);
    assert((x / 0x1_0000) as u16 == hi);
    assert((x % 0x1_0000) as u16 == lo);
    lemma_be16_bytes(b.subrange(0, 2));
    lemma_be16_bytes(b.subrange(2, 4));
    assert(b.subrange(0, 2) + b.subrange(2, 4) =~= b);
}

/// Encoding a 64-bit number and decoding it gives the number back.
pub proof fn lemma_be64_round_trip(x: u64)
    ensures
        be64(x).len() == 8,
        from_be64(be64(x)) == x,
{
    let hi = (x / 0x1_0000_0000) as u32;
    let lo = (x % 0x1_0000_0000) as u32;
    lemma_be32_round_trip(hi);
    lemma_be32_round_trip(lo);
    assert(be64(x).subrange(0, 4) =~= be32(hi));
    assert(be64(x).subrange(4, 8) =~= be32(lo));
}

/// Decoding eight bytes and encoding the number gives the bytes back.
pub proof fn lemma_be64_bytes(b: Seq<u8>)
    requires
        b.len() == 8,
    ensures
        be64(from_be64(b)) == b,
{
    let hi = from_be32(b.subrange(0, 4));
    let lo = from_be32(b.subrange(4, 8));
    let x = from_be64(b);
    assert(x == hi * 0x1_0000_0000 + lo);
    assert((x / 0x1_0000_0000) as u32 == hi);
    assert((x % 0x1_0000_0000) as u32 == lo);
    lemma_be32_bytes(b.subrange(0, 4));
    lemma_be32_bytes(b.subrange(4, 8));
    assert(b.subrange(0, 4) + b.subrange(4, 8) =~= b);
}

/// A sample survives the wire bit for bit, whatever float its value spells.
pub proof fn lemma_sample_round_trip(sample: Sample)
    ensures
        sample_encoded(sample).len() == SAMPLE_SIZE,
        sample_decoded(sample_encoded(sample)) == sample,
{
    reveal(sample_encoded);
    reveal(sample_decoded);
    lemma_be64_round_trip(sample.time);
    lemma_be64_round_trip(sample.value);
    let b = sample_encoded(sample);
    assert(b.subrange(0, 8) =~= be64(sample.time));
    assert(b.subrange(8, 16) =~= be64(sample.value));
}

/// The two bytes of a sample count.
pub fn encode_sample_count(count: u16) -> (buf: [u8; 2])
    ensures
        buf@ == be16(count),
{
    let buf = [(count / 0x100) as u8, (count % 0x100) as u8];
    proof {
        assert(buf@ =~= be16(count));
    }
    buf
}

/// The sample count that two bytes spell.
pub fn decode_sample_count(buf: [u8; 2]) -> (count: u16)
    ensures
        count == from_be16(buf@),
{
    (buf[0] as u16) * 0x100 + (buf[1] as u16)
}

fn be32_bytes(x: u32) -> (buf: [u8; 4])
    ensures
        buf@ == be32(x),
{
    let hi = encode_sample_count((x / 0x1_0000) as u16);
    let lo = encode_sample_count((x % 0x1_0000) as u16);
    let buf = [hi[0], hi[1], lo[0], lo[1]];
    proof {
        assert(buf@ =~= be32(x));
    }
    buf
}

fn be64_bytes(x: u64) -> (buf: [u8; 8])
    ensures
        buf@ == be64(x),
{
    let hi = be32_bytes((x / 0x1_0000_0000) as u32);
    let lo = be32_bytes((x % 0x1_0000_0000) as u32);
    let buf = [hi[0], hi[1], hi[2], hi[3], lo[0], lo[1], lo[2], lo[3]];
    proof {
        assert(buf@ =~= be64(x));
    }
    buf
}

fn be32_value(b0: u8, b1: u8, b2: u8, b3: u8) -> (x: u32)
    ensures
        x == from_be32(seq![b0, b1, b2, b3]),
{
    let hi = decode_sample_count([b0, b1]);
    let lo = decode_sample_count([b2, b3]);
    proof {
        let b = seq![b0, b1, b2, b3];
        assert(b.subrange(0, 2) =~= seq![b0, b1]);
        assert(b.subrange(2, 4) =~= seq![b2, b3]);
        assert([b0, b1]@ =~= seq![b0, b1]);
        assert([b2, b3]@ =~= seq![b2, b3]);
    }
    (hi as u32) * 0x1_0000 + (lo as u32)
}

fn be64_value(b: [u8; 8]) -> (x: u64)
    ensures
        x == from_be64(b@),
{
    let hi = be32_value(b[0], b[1], b[2], b[3]);
    let lo = be32_value(b[4], b[5], b[6], b[7]);
    proof {
        assert(b@.subrange(0, 4) =~= seq![b[0], b[1], b[2], b[3]]);
        assert(b@.subrange(4, 8) =~= seq![b[4], b[5], b[6], b[7]]);
    }
    (hi as u64) * 0x1_0000_0000 + (lo as u64)
}

/// The sixteen bytes of a sample.
pub fn encode_sample(sample: Sample) -> (buf: [u8; SAMPLE_SIZE])
    ensures
        buf@ == sample_encoded(sample),
{
    let t = be64_bytes(sample.time);
    let v = be64_bytes(sample.value);
    let buf = [
        t[0],
        t[1],
        t[2],
        t[3],
        t[4],
        t[5],
        t[6],
        t[7],
        v[0],
        v[1],
        v[2],
        v[3],
        v[4],
        v[5],
        v[6],
        v[7],
    ];
    proof {
        reveal(sample_encoded);
        assert(buf@ =~= sample_encoded(sample));
    }
    buf
}

/// The sample that sixteen bytes spell.
pub fn decode_sample(buf: [u8; SAMPLE_SIZE]) -> (sample: Sample)
    ensures
        sample == sample_decoded(buf@),
{
    let t = [buf[0], buf[1], buf[2], buf[3], buf[4], buf[5], buf[6], buf[7]];
    let v = [buf[8], buf[9], buf[10], buf[11], buf[12], buf[13], buf[14], buf[15]];
    proof {
        reveal(sample_decoded);
        assert(t@ =~= buf@.subrange(0, 8));
        assert(v@ =~= buf@.subrange(8, 16));
    }
    Sample { time: be64_value(t), value: be64_value(v) }
}

/// Appends the bytes of a slice to a vector.
pub fn extend_bytes(out: &mut Vec<u8>, more: &[u8])
    ensures
        final(out)@ == old(out)@ + more@,
{
    let n = more.len();
    let mut i: usize = 0;
    proof {
        assert(out@ + more@.subrange(0, 0) =~= out@);
    }
    while i < n
        invariant
            n == more@.len(),
            i <= n,
            out@ == old(out)@ + more@.subrange(0, i as int),
        decreases n - i,
    {
        out.push(more[i]);
        proof {
            assert((old(out)@ + more@.subrange(0, i as int)).push(more@[i as int]) =~= old(out)@
                + more@.subrange(0, i as int + 1));
        }
        i = i + 1;
    }
    proof {
        assert(more@.subrange(0, n as int) =~= more@);
    }
}

/// Appends a key to `wtr`: the number of its bytes, then its bytes.
pub fn encode_key(wtr: &mut Vec<u8>, key: &MetricKey)
    requires
        key_fits(key@),
    ensures
        final(wtr)@ == old(wtr)@ + key_encoded(key@),
{
    let bytes = key.as_str().as_bytes();
    let len = encode_sample_count(bytes.len() as u16);
    extend_bytes(wtr, len.as_slice());
    extend_bytes(wtr, bytes);
    proof {
        assert(wtr@ =~= old(wtr)@ + key_encoded(key@));
    }
}

/// `String::from_utf8` of std: the string whose bytes are the given ones,
/// which there is exactly where they are well-formed UTF-8.
#[verifier::external_body]
fn string_from_utf8(bytes: Vec<u8>) -> (r: Option<String>)
    ensures
        r is Some == valid_utf8(bytes@),
        r matches Some(s) ==> encode_utf8(s@) == bytes@,
{
    match String::from_utf8(bytes) {
        Ok(text) => Some(text),
        Err(_) => None,
    }
}

/// Reads a key from the start of `buf`. Gives the key and the number of bytes
/// that it took, or says why there is no key: the bytes end too early, or
/// those of the key are not UTF-8.
pub fn decode_key(buf: &[u8]) -> (r: Result<(MetricKey, usize), DecodeError>)
    ensures
        r is Ok == key_decoded(buf@) is Ok,
        r matches Ok((key, used)) ==> key_decoded(buf@) == Ok::<_, DecodeError>(
            (key@, used as nat),
        ),
        r matches Err(e) ==> key_decoded(buf@) == Err::<(Seq<char>, nat), _>(e),
{
    if buf.len() < 2 {
        return Err(DecodeError::Truncated);
    }
    let len = decode_sample_count([buf[0], buf[1]]);
    proof {
        assert([buf[0], buf[1]]@ =~= seq![buf@[0], buf@[1]]);
    }
    let end: usize = 2 + len as usize;
    if buf.len() < end {
        return Err(DecodeError::Truncated);
    }
    let mut bytes: Vec<u8> = Vec::with_capacity(len as usize);
    extend_bytes(&mut bytes, &buf[2..end]);
    proof {
        assert(bytes@ =~= buf@.subrange(2, end as int));
    }
    match string_from_utf8(bytes) {
        Some(key) => {
            proof {
                vstd::utf8::encode_utf8_decode_utf8(key@);
            }
            Ok((key, end))
        },
        None => Err(DecodeError::MalformedFrame),
    }
}

/// A key that fits the length prefix survives the wire.
pub proof fn lemma_key_round_trip(key: Seq<char>, rest: Seq<u8>)
    requires
        key_fits(key),
    ensures
        key_decoded(key_encoded(key) + rest) == Ok::<_, DecodeError>(
            (key, key_encoded(key).len()),
        ),
        key_encoded(key).len() == 2 + encode_utf8(key).len(),
{
    let bytes = encode_utf8(key);
    let len = bytes.len() as u16;
    let b = key_encoded(key) + rest;
    lemma_be16_round_trip(len);
    assert(from_be16(b) == len);
    assert(b.subrange(2, 2 + len) =~= bytes);
    vstd::utf8::encode_utf8_valid_utf8(key);
    vstd::utf8::encode_utf8_decode_utf8(key);
}

} // verus!
