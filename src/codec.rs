use crate::error::DeserializationError;
use crate::types::{BorrowedEntry, Item, Key, Value};
use vstd::bytes::*;
use vstd::prelude::*;
use vstd::slice::slice_subrange;
use vstd::string::StringSliceAdditionalSpecFns;
use vstd::utf8::*;

verus! {

broadcast use {encode_utf8_valid_utf8, encode_utf8_decode_utf8};

/// Bytes in a record header: payload length (8), payload checksum (4), tag (1).
pub const HEADER_SIZE: usize = 13;

/// Tag of a text key or value.
pub const TAG_TEXT: u8 = 1;

/// Tag of an integer key or value.
pub const TAG_INT: u8 = 2;

/// The CRC-32 checksum of a byte sequence.
pub uninterp spec fn crc32_of(b: Seq<u8>) -> u32;

/// Relies on `crc32fast::hash`: the CRC-32 of the bytes, which depends on them alone.
#[verifier::external_body]
pub(crate) fn checksum(data: &[u8]) -> (r: u32)
    ensures
        r == crc32_of(data@),
{
    crc32fast::hash(data)
}

/// Relies on `std::str::from_utf8`: it succeeds exactly on valid UTF-8 and then
/// returns a string slice over the same bytes.
#[verifier::external_body]
fn utf8_text<'a>(b: &'a [u8]) -> (r: Option<&'a str>)
    ensures
        r is Some <==> valid_utf8(b@),
        r matches Some(s) ==> s.spec_bytes() == b@,
{
    std::str::from_utf8(b).ok()
}

/// `x` clamped to the largest `usize`.
pub open spec fn clamp_usize(x: int) -> usize {
    if x > usize::MAX { usize::MAX } else { x as usize }
}

/// The UTF-8 bytes of a text.
pub open spec fn utf8(cs: Seq<char>) -> Seq<u8> {
    encode_utf8(cs)
}

/// The UTF-8 bytes of a text preceded by their count as 8 little-endian bytes.
pub open spec fn counted_text(cs: Seq<char>) -> Seq<u8> {
    spec_u64_to_le_bytes(utf8(cs).len() as u64) + utf8(cs)
}

/// Whether an item's encoding fits the length fields and the address space.
pub open spec fn item_fits(v: Item) -> bool {
    match v {
        Item::Text(cs) => utf8(cs).len() + 64 <= usize::MAX,
        Item::Int(_) => true,
    }
}

/// The tag written for an item.
pub open spec fn item_tag(v: Item) -> u8 {
    match v {
        Item::Text(_) => TAG_TEXT,
        Item::Int(_) => TAG_INT,
    }
}

/// The payload written for an item: a counted text, or 8 little-endian bytes.
pub open spec fn item_payload(v: Item) -> Seq<u8> {
    match v {
        Item::Text(cs) => counted_text(cs),
        Item::Int(i) => spec_u64_to_le_bytes(#[verifier::truncate] (i as u64)),
    }
}

/// A record: the header (payload length, payload checksum, tag) and the payload.
pub open spec fn record(tag: u8, payload: Seq<u8>) -> Seq<u8> {
    spec_u64_to_le_bytes(payload.len() as u64) + spec_u32_to_le_bytes(crc32_of(payload)) + seq![
        tag,
    ] + payload
}

/// The bytes that `serialize_value` produces for a value.
pub open spec fn value_record(v: Item) -> Seq<u8> {
    record(item_tag(v), item_payload(v))
}

/// Reads a counted text at the start of `b`; `base` is how many bytes precede
/// the count in the enclosing layout and is only used to report lengths.
pub open spec fn decode_counted_text(b: Seq<u8>, base: int) -> Result<(Seq<char>, int), DeserializationError> {
    if b.len() < 8 {
        Err(DeserializationError::BufferTooShort { expected: (base + 8) as usize, actual: (base + b.len()) as usize })
    } else {
        let n = spec_u64_from_le_bytes(b.subrange(0, 8));
        if b.len() - 8 < n {
            Err(DeserializationError::BufferTooShort { expected: clamp_usize(base + 8 + n), actual: (base + b.len()) as usize })
        } else {
            let t = b.subrange(8, 8 + n);
            if valid_utf8(t) {
                Ok((decode_utf8(t), 8 + n))
            } else {
                Err(DeserializationError::InvalidUtf8)
            }
        }
    }
}

/// Reads a payload of the given tag.
pub open spec fn decode_payload(tag: u8, p: Seq<u8>) -> Result<Item, DeserializationError> {
    if tag == TAG_TEXT {
        match decode_counted_text(p, 0) {
            Ok((cs, _)) => Ok(Item::Text(cs)),
            Err(e) => Err(e),
        }
    } else if tag == TAG_INT {
        if p.len() < 8 {
            Err(DeserializationError::BufferTooShort { expected: 8, actual: p.len() as usize })
        } else {
            Ok(Item::Int(#[verifier::truncate] (spec_u64_from_le_bytes(p.subrange(0, 8)) as i64)))
        }
    } else {
        Err(DeserializationError::UnknownTag(tag))
    }
}

/// What reading a record at the start of `b` gives: the item and the number of
/// bytes the record spans, or why it cannot be read.
pub open spec fn decode_value(b: Seq<u8>) -> Result<(Item, int), DeserializationError> {
    if b.len() < HEADER_SIZE {
        Err(DeserializationError::BufferTooShort { expected: HEADER_SIZE, actual: b.len() as usize })
    } else {
        let length = spec_u64_from_le_bytes(b.subrange(0, 8));
        let stored = spec_u32_from_le_bytes(b.subrange(8, 12));
        let tag = b[12];
        if b.len() - HEADER_SIZE < length {
            Err(DeserializationError::BufferTooShort { expected: clamp_usize(HEADER_SIZE + length), actual: b.len() as usize })
        } else {
            let payload = b.subrange(HEADER_SIZE as int, HEADER_SIZE + length);
            if crc32_of(payload) != stored {
                Err(DeserializationError::ChecksumMismatch { expected: stored, actual: crc32_of(payload) })
            } else {
                match decode_payload(tag, payload) {
                    Ok(item) => Ok((item, HEADER_SIZE + length)),
                    Err(e) => Err(e),
                }
            }
        }
    }
}

/// The bytes that `serialize_key` produces for a key: the tag, then a counted
/// text or 8 little-endian bytes.
pub open spec fn key_bytes(k: Item) -> Seq<u8> {
    match k {
        Item::Text(cs) => seq![TAG_TEXT] + counted_text(cs),
        Item::Int(i) => seq![TAG_INT] + spec_u64_to_le_bytes(#[verifier::truncate] (i as u64)),
    }
}

/// What reading a key at the start of `b` gives: the key and the number of
/// bytes it spans, or why it cannot be read.
pub open spec fn decode_key(b: Seq<u8>) -> Result<(Item, int), DeserializationError> {
    if b.len() == 0 {
        Err(DeserializationError::BufferTooShort { expected: 1, actual: 0 })
    } else if b[0] == TAG_TEXT {
        match decode_counted_text(b.subrange(1, b.len() as int), 1) {
            Ok((cs, n)) => Ok((Item::Text(cs), 1 + n)),
            Err(e) => Err(e),
        }
    } else if b[0] == TAG_INT {
        if b.len() < 9 {
            Err(DeserializationError::BufferTooShort { expected: 9, actual: b.len() as usize })
        } else {
            Ok((Item::Int(#[verifier::truncate] (spec_u64_from_le_bytes(b.subrange(1, 9)) as i64)), 9))
        }
    } else {
        Err(DeserializationError::UnknownTag(b[0]))
    }
}

/// Appends `src` to `out`.
pub fn append_bytes(out: &mut Vec<u8>, src: &[u8])
    ensures
        final(out)@ == old(out)@ + src@,
{
    let mut i: usize = 0;
    while i < src.len()
        invariant
            i <= src@.len(),
            out@ == old(out)@ + src@.subrange(0, i as int),
        decreases src@.len() - i,
    {
        out.push(src[i]);
        i = i + 1;
        assert(out@ =~= old(out)@ + src@.subrange(0, i as int));
    }
    assert(src@.subrange(0, src@.len() as int) =~= src@);
}

/// Reading back a value's record gives the value and the record's length,
/// whatever bytes follow it.
pub proof fn lemma_value_round_trip(v: Item, rest: Seq<u8>)
    requires
        item_fits(v),
    ensures
        decode_value(value_record(v) + rest) == Ok::<(Item, int), DeserializationError>(
            (v, value_record(v).len() as int),
        ),
{
    lemma_auto_spec_u64_to_from_le_bytes();
    lemma_auto_spec_u32_to_from_le_bytes();
    let p = item_payload(v);
    let b = value_record(v) + rest;
    assert(b.subrange(0, 8) =~= spec_u64_to_le_bytes(p.len() as u64));
    assert(b.subrange(8, 12) =~= spec_u32_to_le_bytes(crc32_of(p)));
    assert(b.subrange(HEADER_SIZE as int, HEADER_SIZE + p.len()) =~= p);
    match v {
        Item::Text(cs) => {
            assert(p.subrange(0, 8) =~= spec_u64_to_le_bytes(utf8(cs).len() as u64));
            assert(p.subrange(8, 8 + utf8(cs).len() as int) =~= utf8(cs));
        },
        Item::Int(i) => {
            assert(p.subrange(0, 8) =~= p);
            assert((#[verifier::truncate] ((#[verifier::truncate] (i as u64)) as i64)) == i) by (bit_vector);
        },
    }
}

/// Reading back a key's encoding gives the key and the encoding's length,
/// whatever bytes follow it.
pub proof fn lemma_key_round_trip(k: Item, rest: Seq<u8>)
    requires
        item_fits(k),
    ensures
        decode_key(key_bytes(k) + rest) == Ok::<(Item, int), DeserializationError>(
            (k, key_bytes(k).len() as int),
        ),
{
    lemma_auto_spec_u64_to_from_le_bytes();
    let b = key_bytes(k) + rest;
    match k {
        Item::Text(cs) => {
            let t = b.subrange(1, b.len() as int);
            assert(t =~= counted_text(cs) + rest);
            assert(t.subrange(0, 8) =~= spec_u64_to_le_bytes(utf8(cs).len() as u64));
            assert(t.subrange(8, 8 + utf8(cs).len() as int) =~= utf8(cs));
        },
        Item::Int(i) => {
            assert(b.subrange(1, 9) =~= spec_u64_to_le_bytes(#[verifier::truncate] (i as u64)));
            assert((#[verifier::truncate] ((#[verifier::truncate] (i as u64)) as i64)) == i) by (bit_vector);
        },
    }
}

/// A record whose payload was altered into bytes with a different CRC-32 is
/// rejected with `ChecksumMismatch`, naming the stored and the computed checksum.
pub proof fn lemma_altered_payload_detected(v: Item, altered: Seq<u8>)
    requires
        item_fits(v),
        altered.len() == item_payload(v).len(),
        crc32_of(altered) != crc32_of(item_payload(v)),
    ensures
        decode_value(value_record(v).subrange(0, HEADER_SIZE as int) + altered)
            == Err::<(Item, int), DeserializationError>(
            DeserializationError::ChecksumMismatch {
                expected: crc32_of(item_payload(v)),
                actual: crc32_of(altered),
            },
        ),
{
    lemma_auto_spec_u64_to_from_le_bytes();
    lemma_auto_spec_u32_to_from_le_bytes();
    let p = item_payload(v);
    let b = value_record(v).subrange(0, HEADER_SIZE as int) + altered;
    assert(b.subrange(0, 8) =~= spec_u64_to_le_bytes(p.len() as u64));
    assert(b.subrange(8, 12) =~= spec_u32_to_le_bytes(crc32_of(p)));
    assert(b.subrange(HEADER_SIZE as int, HEADER_SIZE + p.len()) =~= altered);
}

/// A record that reads successfully reads the same from any buffer that starts
/// with the same bytes over the record's span.
pub proof fn lemma_decode_value_prefix(b: Seq<u8>, c: Seq<u8>)
    requires
        decode_value(b) is Ok,
        c.len() >= decode_value(b)->Ok_0.1,
        c.subrange(0, decode_value(b)->Ok_0.1) == b.subrange(0, decode_value(b)->Ok_0.1),
    ensures
        decode_value(c) == decode_value(b),
{
    let n = decode_value(b)->Ok_0.1;
    assert(c.subrange(0, 8) =~= c.subrange(0, n).subrange(0, 8));
    assert(b.subrange(0, 8) =~= b.subrange(0, n).subrange(0, 8));
    assert(c.subrange(8, 12) =~= c.subrange(0, n).subrange(8, 12));
    assert(b.subrange(8, 12) =~= b.subrange(0, n).subrange(8, 12));
    assert(c[12] == c.subrange(0, n)[12]);
    assert(b[12] == b.subrange(0, n)[12]);
    assert(c.subrange(HEADER_SIZE as int, n) =~= c.subrange(0, n).subrange(HEADER_SIZE as int, n));
    assert(b.subrange(HEADER_SIZE as int, n) =~= b.subrange(0, n).subrange(HEADER_SIZE as int, n));
}

/// A record that reads successfully spans its header and lies within the buffer.
pub proof fn lemma_decode_value_span(b: Seq<u8>)
    requires
        decode_value(b) is Ok,
    ensures
        HEADER_SIZE <= decode_value(b)->Ok_0.1 <= b.len(),
{
}

/// `a + b`, or the largest `usize` where the sum does not fit.
pub(crate) fn clamped_sum(a: usize, b: u64) -> (r: usize)
    ensures
        r == clamp_usize(a + b),
{
    if b > (usize::MAX - a) as u64 {
        usize::MAX
    } else {
        a + b as usize
    }
}

/// Reads a counted text at the start of `p`.
fn read_counted_text<'a>(p: &'a [u8], base: usize) -> (r: Result<(&'a str, usize), DeserializationError>)
    requires
        base <= 1,
        base + p@.len() <= usize::MAX,
    ensures
        r is Ok <==> decode_counted_text(p@, base as int) is Ok,
        r matches Ok((s, n)) ==> decode_counted_text(p@, base as int) == Ok::<(Seq<char>, int), DeserializationError>((s@, n as int)),
        r matches Err(e) ==> decode_counted_text(p@, base as int) == Err::<(Seq<char>, int), DeserializationError>(e),
{
    if p.len() < 8 {
        return Err(DeserializationError::BufferTooShort { expected: base + 8, actual: base + p.len() });
    }
    let n = u64_from_le_bytes(slice_subrange(p, 0, 8));
    if ((p.len() - 8) as u64) < n {
        return Err(DeserializationError::BufferTooShort { expected: clamped_sum(base + 8, n), actual: base + p.len() });
    }
    let end = 8 + n as usize;
    let t = slice_subrange(p, 8, end);
    match utf8_text(t) {
        Some(s) => {
            proof {
                encode_utf8_decode_utf8(s@);
            }
            Ok((s, end))
        },
        None => Err(DeserializationError::InvalidUtf8),
    }
}

/// Encodes a value as a record: a 13-byte header holding the payload length,
/// the payload's CRC-32 and the tag, followed by the payload.
pub fn serialize_value(value: &Value) -> (r: Vec<u8>)
    requires
        item_fits(value@),
    ensures
        r@ == value_record(value@),
{
    let mut payload: Vec<u8> = Vec::new();
    let tag: u8;
    match value {
        Value::String(s) => {
            let b = s.as_str().as_bytes();
            append_bytes(&mut payload, u64_to_le_bytes(b.len() as u64).as_slice());
            append_bytes(&mut payload, b);
            tag = TAG_TEXT;
        },
        Value::Int(i) => {
            append_bytes(&mut payload, u64_to_le_bytes(#[verifier::truncate] (*i as u64)).as_slice());
            tag = TAG_INT;
        },
    }
    let crc = checksum(payload.as_slice());
    let mut out: Vec<u8> = Vec::new();
    append_bytes(&mut out, u64_to_le_bytes(payload.len() as u64).as_slice());
    append_bytes(&mut out, u32_to_le_bytes(crc).as_slice());
    out.push(tag);
    append_bytes(&mut out, payload.as_slice());
    proof {
        assert(payload@ =~= item_payload(value@));
        assert(out@ =~= value_record(value@));
    }
    out
}

/// Decodes the record at the start of `bytes`, returning the entry (whose text
/// borrows from `bytes`) and the number of bytes the record spans. Bytes after
/// the record are ignored.
pub fn deserialize_value<'a>(bytes: &'a [u8]) -> (r: Result<(BorrowedEntry<'a>, usize), DeserializationError>)
    ensures
        r is Ok <==> decode_value(bytes@) is Ok,
        r matches Ok((e, n)) ==> decode_value(bytes@) == Ok::<(Item, int), DeserializationError>((e@, n as int)),
        r matches Err(e) ==> decode_value(bytes@) == Err::<(Item, int), DeserializationError>(e),
{
    if bytes.len() < HEADER_SIZE {
        return Err(DeserializationError::BufferTooShort { expected: HEADER_SIZE, actual: bytes.len() });
    }
    let length = u64_from_le_bytes(slice_subrange(bytes, 0, 8));
    let stored = u32_from_le_bytes(slice_subrange(bytes, 8, 12));
    let tag = bytes[12];
    if ((bytes.len() - HEADER_SIZE) as u64) < length {
        return Err(DeserializationError::BufferTooShort { expected: clamped_sum(HEADER_SIZE, length), actual: bytes.len() });
    }
    let end = HEADER_SIZE + length as usize;
    let payload = slice_subrange(bytes, HEADER_SIZE, end);
    let actual = checksum(payload);
    if actual != stored {
        return Err(DeserializationError::ChecksumMismatch { expected: stored, actual });
    }
    if tag == TAG_TEXT {
        match read_counted_text(payload, 0) {
            Ok((s, _)) => Ok((BorrowedEntry::Text(s), end)),
            Err(e) => Err(e),
        }
    } else if tag == TAG_INT {
        if payload.len() < 8 {
            return Err(DeserializationError::BufferTooShort { expected: 8, actual: payload.len() });
        }
        let v = u64_from_le_bytes(slice_subrange(payload, 0, 8));
        Ok((BorrowedEntry::Int(#[verifier::truncate] (v as i64)), end))
    } else {
        Err(DeserializationError::UnknownTag(tag))
    }
}

/// Encodes a key: the tag byte, then a counted text or 8 little-endian bytes.
/// Keys carry no checksum.
pub fn serialize_key(key: &Key) -> (r: Vec<u8>)
    requires
        item_fits(key@),
    ensures
        r@ == key_bytes(key@),
{
    let mut out: Vec<u8> = Vec::new();
    match key {
        Key::String(s) => {
            out.push(TAG_TEXT);
            let b = s.as_str().as_bytes();
            append_bytes(&mut out, u64_to_le_bytes(b.len() as u64).as_slice());
            append_bytes(&mut out, b);
        },
        Key::Int(i) => {
            out.push(TAG_INT);
            append_bytes(&mut out, u64_to_le_bytes(#[verifier::truncate] (*i as u64)).as_slice());
        },
    }
    proof {
        assert(out@ =~= key_bytes(key@));
    }
    out
}

/// Decodes the key at the start of `bytes`, returning it and the number of
/// bytes it spans.
pub fn deserialize_key(bytes: &[u8]) -> (r: Result<(Key, usize), DeserializationError>)
    ensures
        r is Ok <==> decode_key(bytes@) is Ok,
        r matches Ok((k, n)) ==> decode_key(bytes@) == Ok::<(Item, int), DeserializationError>((k@, n as int)),
        r matches Err(e) ==> decode_key(bytes@) == Err::<(Item, int), DeserializationError>(e),
{
    if bytes.len() == 0 {
        return Err(DeserializationError::BufferTooShort { expected: 1, actual: 0 });
    }
    let tag = bytes[0];
    if tag == TAG_TEXT {
        let rest = slice_subrange(bytes, 1, bytes.len());
        match read_counted_text(rest, 1) {
            Ok((s, n)) => Ok((Key::String(s.to_owned()), 1 + n)),
            Err(e) => Err(e),
        }
    } else if tag == TAG_INT {
        if bytes.len() < 9 {
            return Err(DeserializationError::BufferTooShort { expected: 9, actual: bytes.len() });
        }
        let v = u64_from_le_bytes(slice_subrange(bytes, 1, 9));
        Ok((Key::Int(#[verifier::truncate] (v as i64)), 9))
    } else {
        Err(DeserializationError::UnknownTag(tag))
    }
}

} // verus!
