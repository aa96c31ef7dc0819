//! The entry types of the store.

use vstd::prelude::*;
use vstd::string::*;
use vstd::utf8::*;

verus! {

/// The number of bytes in the UTF-8 encoding of a key.
pub open spec fn key_byte_len(key: Seq<char>) -> nat {
    encode_utf8(key).len()
}

/// An entry stored in the in-memory index.
///
/// Holds just enough information to locate the full entry in the log.
pub struct InMemoryEntry {
    /// The entry key.
    pub key: String,
    /// Byte offset in the log where the corresponding [`OnDiskEntry`] begins.
    pub offset: u64,
}

/// The full representation of an entry as laid out in the log.
///
/// On-disk layout (big-endian):
/// `[KeySize: 4 bytes][ValueSize: 8 bytes][Flags: 1 byte][Key: KeySize bytes][Value: ValueSize bytes]`
#[derive(Debug)]
pub struct OnDiskEntry {
    /// Length of the key in bytes.
    pub key_size: u32,
    /// Length of the value in bytes. Zero for tombstone entries.
    pub value_size: u64,
    /// Entry flags. Bit `0x01` is set for tombstone (deleted) entries.
    pub flags: u8,
    /// The entry key.
    pub key: String,
    /// The entry value. Empty for tombstone entries.
    pub value: Vec<u8>,
}

/// A key-value pair supplied by the caller for writing to the store.
pub struct NewEntry {
    /// The entry key.
    pub key: String,
    /// The entry value.
    pub value: Vec<u8>,
}

/// Whether the flags byte marks a tombstone.
pub open spec fn is_tombstone_flag(flags: u8) -> bool {
    flags & 1u8 == 1u8
}

impl OnDiskEntry {
    /// The sizes recorded in the entry are those of its key and value.
    pub open spec fn sizes_match(&self) -> bool {
        &&& self.key_size as nat == key_byte_len(self.key@)
        &&& self.value_size as nat == self.value@.len()
    }

    /// Creates a new [`OnDiskEntry`] from a [`NewEntry`].
    ///
    /// The key size is the key's byte length cast to `u32`, so a key of 4 GiB or
    /// more gets a truncated size, as the cast does.
    pub fn from_new_entry(entry: NewEntry) -> (r: Self)
        ensures
            r.key_size == (key_byte_len(entry.key@) as usize) as u32,
            key_byte_len(entry.key@) <= u32::MAX ==> r.key_size == key_byte_len(entry.key@),
            r.value_size == entry.value@.len(),
            r.flags == 0,
            r.key@ == entry.key@,
            r.value@ == entry.value@,
    {
        let key_len = entry.key.as_str().len();
        let value_len = entry.value.len();
        OnDiskEntry {
            key_size: #[verifier::truncate] (key_len as u32),
            value_size: value_len as u64,
            flags: 0,
            key: entry.key,
            value: entry.value,
        }
    }

    /// Creates a tombstone entry for the given [`InMemoryEntry`].
    ///
    /// Tombstones have `flags & 0x01 == 1` and a zero-length value, signaling
    /// that the key has been deleted.
    pub fn tombstone_for(ime: &InMemoryEntry) -> (r: Self)
        ensures
            r.key_size == (key_byte_len(ime.key@) as usize) as u32,
            key_byte_len(ime.key@) <= u32::MAX ==> r.key_size == key_byte_len(ime.key@),
            r.value_size == 0,
            r.flags == 1,
            r.key@ == ime.key@,
            r.value@ == Seq::<u8>::empty(),
            is_tombstone_flag(r.flags),
    {
        let key_len = ime.key.as_str().len();
        assert(1u8 & 1u8 == 1u8) by (bit_vector);
        OnDiskEntry {
            key_size: #[verifier::truncate] (key_len as u32),
            value_size: 0,
            flags: 0x01,
            key: ime.key.clone(),
            value: Vec::new(),
        }
    }
}

} // verus!
