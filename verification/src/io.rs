//! The on-disk entry format: encoding an entry, and the decoding steps that
//! reading an entry back from the store is made of.
//!
//! All multi-byte fields are big-endian:
//! `[KeySize: 4 bytes][ValueSize: 8 bytes][Flags: 1 byte][Key][Value]`.

use vstd::prelude::*;
use vstd::string::*;
use vstd::utf8::*;

use crate::model::OnDiskEntry;
use crate::model::key_byte_len;
use crate::strings::str_from_utf8;
use crate::log::holds_record;
use crate::log::lemma_appended_record;
use crate::log::lemma_record_prefix;
use crate::log::rec_key_bytes;
use crate::log::rec_len;
use crate::log::rec_key_size;
use crate::log::rec_value_size;
use crate::log::rec_flags;
use crate::log::rec_value;
use crate::log::record_fault;
use vstd::slice::slice_subrange;
use vstd::slice::slice_to_vec;

verus! {

/// Big-endian bytes of a `u32`.
pub open spec fn u32_be_bytes(x: u32) -> Seq<u8> {
    seq![(x >> 24u32) as u8, (x >> 16u32) as u8, (x >> 8u32) as u8, x as u8]
}

/// Big-endian bytes of a `u64`.
pub open spec fn u64_be_bytes(x: u64) -> Seq<u8> {
    seq![
        (x >> 56u64) as u8, (x >> 48u64) as u8, (x >> 40u64) as u8, (x >> 32u64) as u8,
        (x >> 24u64) as u8, (x >> 16u64) as u8, (x >> 8u64) as u8, x as u8,
    ]
}

/// The big-endian `u32` held by the four bytes of `data` that start at `off`.
pub open spec fn be_u32_at(data: Seq<u8>, off: int) -> u32 {
    ((data[off] as u32) << 24u32) | ((data[off + 1] as u32) << 16u32)
        | ((data[off + 2] as u32) << 8u32) | (data[off + 3] as u32)
}

/// The big-endian `u64` held by the eight bytes of `data` that start at `off`.
pub open spec fn be_u64_at(data: Seq<u8>, off: int) -> u64 {
    ((data[off] as u64) << 56u64) | ((data[off + 1] as u64) << 48u64)
        | ((data[off + 2] as u64) << 40u64) | ((data[off + 3] as u64) << 32u64)
        | ((data[off + 4] as u64) << 24u64) | ((data[off + 5] as u64) << 16u64)
        | ((data[off + 6] as u64) << 8u64) | (data[off + 7] as u64)
}

/// The bytes of one entry: header, then key bytes, then value bytes.
pub open spec fn entry_bytes(key_size: u32, value_size: u64, flags: u8, key: Seq<u8>, value: Seq<u8>) -> Seq<u8> {
    u32_be_bytes(key_size) + u64_be_bytes(value_size) + seq![flags] + key + value
}

/// The bytes that `encode_entry` writes for an entry.
pub open spec fn encoded(entry: OnDiskEntry) -> Seq<u8> {
    entry_bytes(entry.key_size, entry.value_size, entry.flags, encode_utf8(entry.key@), entry.value@)
}

/// Reading back the four bytes written for `x` gives `x`.
pub proof fn lemma_u32_roundtrip(data: Seq<u8>, off: int, x: u32)
    requires
        0 <= off,
        off + 4 <= data.len(),
        data.subrange(off, off + 4) == u32_be_bytes(x),
    ensures
        be_u32_at(data, off) == x,
{
    let b = u32_be_bytes(x);
    assert(data[off] == b[0] && data[off + 1] == b[1] && data[off + 2] == b[2] && data[off + 3] == b[3]) by {
        assert(data.subrange(off, off + 4)[0] == data[off]);
        assert(data.subrange(off, off + 4)[1] == data[off + 1]);
        assert(data.subrange(off, off + 4)[2] == data[off + 2]);
        assert(data.subrange(off, off + 4)[3] == data[off + 3]);
    }
    let (b0, b1, b2, b3) = (data[off], data[off + 1], data[off + 2], data[off + 3]);
    assert((((b0 as u32) << 24u32) | ((b1 as u32) << 16u32) | ((b2 as u32) << 8u32) | (b3 as u32)) == x)
        by (bit_vector)
        requires
            b0 == (x >> 24u32) as u8,
            b1 == (x >> 16u32) as u8,
            b2 == (x >> 8u32) as u8,
            b3 == x as u8,
    ;
}

/// Reading back the eight bytes written for `x` gives `x`.
pub proof fn lemma_u64_roundtrip(data: Seq<u8>, off: int, x: u64)
    requires
        0 <= off,
        off + 8 <= data.len(),
        data.subrange(off, off + 8) == u64_be_bytes(x),
    ensures
        be_u64_at(data, off) == x,
{
    let b = u64_be_bytes(x);
    let s = data.subrange(off, off + 8);
    assert(s[0] == data[off] && s[1] == data[off + 1] && s[2] == data[off + 2] && s[3] == data[off + 3]);
    assert(s[4] == data[off + 4] && s[5] == data[off + 5] && s[6] == data[off + 6] && s[7] == data[off + 7]);
    let (b0, b1, b2, b3) = (data[off], data[off + 1], data[off + 2], data[off + 3]);
    let (b4, b5, b6, b7) = (data[off + 4], data[off + 5], data[off + 6], data[off + 7]);
    assert((((b0 as u64) << 56u64) | ((b1 as u64) << 48u64) | ((b2 as u64) << 40u64) | ((b3 as u64) << 32u64)
        | ((b4 as u64) << 24u64) | ((b5 as u64) << 16u64) | ((b6 as u64) << 8u64) | (b7 as u64)) == x)
        by (bit_vector)
        requires
            b0 == (x >> 56u64) as u8,
            b1 == (x >> 48u64) as u8,
            b2 == (x >> 40u64) as u8,
            b3 == (x >> 32u64) as u8,
            b4 == (x >> 24u64) as u8,
            b5 == (x >> 16u64) as u8,
            b6 == (x >> 8u64) as u8,
            b7 == x as u8,
    ;
}

/// Appends the bytes of `src` to `out`.
fn push_all(out: &mut Vec<u8>, src: &[u8])
    ensures
        final(out)@ == old(out)@ + src@,
{
    let mut i: usize = 0;
    while i < src.len()
        invariant
            i <= src@.len(),
            out@ == old(out)@ + src@.subrange(0, i as int),
        decreases src@.len() - i,
    {
        out.push(src[i]);
        i = i + 1;
        assert(src@.subrange(0, i as int) == src@.subrange(0, i - 1).push(src@[i - 1]));
    }
    assert(src@.subrange(0, src@.len() as int) == src@);
}

/// Encodes an [`OnDiskEntry`] into its binary on-disk representation.
///
/// The layout is (big-endian):
/// `[KeySize: 4 bytes][ValueSize: 8 bytes][Flags: 1 byte][Key bytes][Value bytes]`
pub fn encode_entry(entry: &OnDiskEntry) -> (r: Vec<u8>)
    ensures
        r@ == encoded(*entry),
        r@.len() == 13 + key_byte_len(entry.key@) + entry.value@.len(),
{
    let ks = entry.key_size;
    let vs = entry.value_size;
    let mut out: Vec<u8> = Vec::new();
    out.push((ks >> 24u32) as u8);
    out.push((ks >> 16u32) as u8);
    out.push((ks >> 8u32) as u8);
    out.push(ks as u8);
    out.push((vs >> 56u64) as u8);
    out.push((vs >> 48u64) as u8);
    out.push((vs >> 40u64) as u8);
    out.push((vs >> 32u64) as u8);
    out.push((vs >> 24u64) as u8);
    out.push((vs >> 16u64) as u8);
    out.push((vs >> 8u64) as u8);
    out.push(vs as u8);
    out.push(entry.flags);
    assert(out@ == u32_be_bytes(ks) + u64_be_bytes(vs) + seq![entry.flags]);
    let key_bytes = entry.key.as_str().as_bytes();
    push_all(&mut out, key_bytes);
    push_all(&mut out, entry.value.as_slice());
    out
}

/// Errors that can occur while parsing or accessing the store file.
#[derive(Debug, PartialEq, Eq, Structural)]
pub enum ParseError {
    /// The entry size declared in the header exceeds the actual file size.
    SizeMismatch,
    /// Failed to copy a byte slice into a fixed-size array.
    SliceCopyError,
    /// Failed to seek within the store file.
    SeekError,
    /// Failed to read from the store file.
    ReadError,
    /// The key bytes are not valid UTF-8.
    StringParseError,
}

impl ParseError {
    /// The error's message.
    pub fn message(&self) -> (r: String)
        ensures
            r@ == match self {
                ParseError::SizeMismatch => "Entry size in header does not match the file size"@,
                ParseError::SliceCopyError => "Failed to copy bytes into a fixed-size array"@,
                ParseError::SeekError => "Failed to seek within the store file"@,
                ParseError::ReadError => "Failed to read from the store file"@,
                ParseError::StringParseError => "Key contains invalid UTF-8"@,
            },
    {
        match self {
            ParseError::SizeMismatch => "Entry size in header does not match the file size".to_owned(),
            ParseError::SliceCopyError => "Failed to copy bytes into a fixed-size array".to_owned(),
            ParseError::SeekError => "Failed to seek within the store file".to_owned(),
            ParseError::ReadError => "Failed to read from the store file".to_owned(),
            ParseError::StringParseError => "Key contains invalid UTF-8".to_owned(),
        }
    }
}

/// Decodes the 13-byte header that starts at `off` in `data`: the key size,
/// the value size and the flags byte.
pub fn decode_header(data: &[u8], off: usize) -> (r: (u32, u64, u8))
    requires
        off + 13 <= data@.len(),
    ensures
        r.0 == be_u32_at(data@, off as int),
        r.1 == be_u64_at(data@, off + 4),
        r.2 == data@[off + 12],
{
    let ks = ((data[off] as u32) << 24u32) | ((data[off + 1] as u32) << 16u32)
        | ((data[off + 2] as u32) << 8u32) | (data[off + 3] as u32);
    let vs = ((data[off + 4] as u64) << 56u64) | ((data[off + 5] as u64) << 48u64)
        | ((data[off + 6] as u64) << 40u64) | ((data[off + 7] as u64) << 32u64)
        | ((data[off + 8] as u64) << 24u64) | ((data[off + 9] as u64) << 16u64)
        | ((data[off + 10] as u64) << 8u64) | (data[off + 11] as u64);
    (ks, vs, data[off + 12])
}

/// Checks the entry size that a header declares against the size of the file:
/// the size of the whole entry (header, key and value) when it fits in a `u64`
/// and is no larger than the file.
pub fn checked_entry_size(key_size: u32, value_size: u64, file_size: u64) -> (r: Result<u64, ParseError>)
    ensures
        match r {
            Ok(n) => n == 13 + key_size + value_size && n <= file_size,
            Err(e) => e == ParseError::SizeMismatch && (13 + key_size + value_size > u64::MAX
                || file_size < 13 + key_size + value_size),
        },
{
    let head = 13u64 + key_size as u64;
    let entry_size = match head.checked_add(value_size) {
        Some(n) => n,
        None => return Err(ParseError::SizeMismatch),
    };
    if file_size < entry_size {
        return Err(ParseError::SizeMismatch);
    }
    Ok(entry_size)
}

/// Decodes the key bytes of an entry read from the store. The key must be
/// valid UTF-8.
pub fn decode_key(key_bytes: &[u8]) -> (r: Result<String, ParseError>)
    ensures
        match r {
            Ok(key) => {
                &&& valid_utf8(key_bytes@)
                &&& key@ == decode_utf8(key_bytes@)
                &&& encode_utf8(key@) == key_bytes@
            },
            Err(e) => e == ParseError::StringParseError && !valid_utf8(key_bytes@),
        },
{
    match str_from_utf8(key_bytes) {
        Ok(s) => {
            proof {
                encode_utf8_decode_utf8(s@);
            }
            Ok(s.to_owned())
        },
        Err(_) => Err(ParseError::StringParseError),
    }
}

/// The smaller of two numbers.
pub open spec fn min_int(a: int, b: int) -> int {
    if a <= b { a } else { b }
}

/// Where the key bytes that reading the entry at `off` takes end: after the
/// declared key size, or at the end of `data` if that comes first.
pub open spec fn read_key_end(data: Seq<u8>, off: int) -> int {
    min_int(off + 13 + rec_key_size(data, off), data.len() as int)
}

/// The key bytes that reading the entry at `off` takes.
pub open spec fn read_key_bytes(data: Seq<u8>, off: int) -> Seq<u8> {
    data.subrange(off + 13, read_key_end(data, off))
}

/// The value bytes that reading the entry at `off` takes: up to the declared
/// value size after the key bytes, as many as `data` holds.
pub open spec fn read_value(data: Seq<u8>, off: int) -> Seq<u8> {
    data.subrange(read_key_end(data, off), min_int(read_key_end(data, off) + rec_value_size(data, off), data.len() as int))
}

/// Reads the entry that starts at `offset` in the bytes `data` of a store, as
/// reading it from the store file does: the 13-byte header, the check of the
/// declared entry size against the size of the whole file, then up to the
/// declared number of key bytes and of value bytes, as many as there are.
///
/// Fails with `ReadError` if the header does not fit in `data`, with
/// `SizeMismatch` if the declared entry size does not fit in a `u64` or is
/// larger than `data`, and with `StringParseError` if the key is not UTF-8.
pub fn read_entry_at(data: &[u8], offset: u64) -> (r: Result<OnDiskEntry, ParseError>)
    ensures
        match r {
            Ok(e) => {
                &&& offset + 13 <= data@.len()
                &&& rec_len(data@, offset as int) <= u64::MAX
                &&& rec_len(data@, offset as int) <= data@.len()
                &&& valid_utf8(read_key_bytes(data@, offset as int))
                &&& e.key_size == rec_key_size(data@, offset as int)
                &&& e.value_size == rec_value_size(data@, offset as int)
                &&& e.flags == rec_flags(data@, offset as int)
                &&& e.key@ == decode_utf8(read_key_bytes(data@, offset as int))
                &&& e.value@ == read_value(data@, offset as int)
            },
            Err(ParseError::ReadError) => offset + 13 > data@.len(),
            Err(ParseError::SizeMismatch) => offset + 13 <= data@.len() && (rec_len(data@, offset as int) > u64::MAX
                || rec_len(data@, offset as int) > data@.len()),
            Err(ParseError::StringParseError) => offset + 13 <= data@.len() && rec_len(data@, offset as int) <= data@.len()
                && rec_len(data@, offset as int) <= u64::MAX && !valid_utf8(read_key_bytes(data@, offset as int)),
            Err(_) => false,
        },
{
    let len = data.len() as u64;
    if offset > len || len - offset < 13 {
        return Err(ParseError::ReadError);
    }
    let off = offset as usize;
    let (key_size, value_size, flags) = decode_header(data, off);
    checked_entry_size(key_size, value_size, len)?;
    let room = len - offset - 13;
    let key_take = if (key_size as u64) < room { key_size as u64 } else { room };
    let key_end = off + 13 + key_take as usize;
    let key = decode_key(slice_subrange(data, off + 13, key_end))?;
    let value_room = room - key_take;
    let value_take = if value_size < value_room { value_size } else { value_room };
    let value = slice_to_vec(slice_subrange(data, key_end, key_end + value_take as usize));
    Ok(OnDiskEntry { key_size, value_size, flags, key, value })
}

/// An entry that lies whole in the data is read whole: its key and value bytes
/// are those the entry declares.
pub proof fn lemma_whole_entry_reads_whole(data: Seq<u8>, off: int)
    requires
        0 <= off,
        record_fault(data, off) is None,
    ensures
        read_key_bytes(data, off) == rec_key_bytes(data, off),
        read_value(data, off) == rec_value(data, off),
        rec_len(data, off) <= data.len(),
{
}

/// Reading back an encoded entry: wherever the bytes `encode_entry` writes for
/// an entry stand in a store, reading at their offset gives that entry back,
/// whatever comes before or after them.
pub proof fn lemma_read_entry_roundtrip(before: Seq<u8>, entry: OnDiskEntry, after: Seq<u8>)
    requires
        entry.sizes_match(),
        13 + entry.key_size + entry.value_size <= u64::MAX,
    ensures
        record_fault(before + encoded(entry) + after, before.len() as int) is None,
        holds_record(before + encoded(entry) + after, before.len() as int, entry),
        read_key_bytes(before + encoded(entry) + after, before.len() as int) == encode_utf8(entry.key@),
        read_value(before + encoded(entry) + after, before.len() as int) == entry.value@,
{
    let kb = encode_utf8(entry.key@);
    assert(encoded(entry) == entry_bytes(kb.len() as u32, entry.value@.len() as u64, entry.flags, kb, entry.value@));
    lemma_appended_record(before, entry.flags, entry.key@, entry.value@);
    lemma_record_prefix(before + encoded(entry), after, before.len() as int);
    lemma_whole_entry_reads_whole(before + encoded(entry) + after, before.len() as int);
    encode_utf8_decode_utf8(entry.key@);
}

} // verus!
