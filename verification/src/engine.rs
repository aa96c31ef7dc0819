//! The engine: the in-memory index of a store and the log it is the replay of.
//!
//! The store's file is read and written outside the library. The engine holds
//! the index, the length of the log and, as ghost state, the log's bytes; every
//! operation keeps the index equal to the replay of the log. A write is made in
//! two steps: the engine prepares a [`LogWrite`] whose bytes the caller appends
//! to the file, then [`Engine::apply`] records it.

use vstd::prelude::*;
use vstd::string::*;
use vstd::utf8::*;
use vstd::slice::slice_subrange;
use vstd::slice::slice_to_vec;

use crate::io::decode_header;
use crate::io::encode_entry;
use crate::io::entry_bytes;
use crate::io::encoded;
use crate::log::ReplayFault;
use crate::log::apply_record;
use crate::log::lemma_appended_record;
use crate::log::lemma_replay_index_live;
use crate::log::lemma_replay_after_write;
use crate::log::lemma_replay_empty;
use crate::log::holds_record;
use crate::log::live_record;
use crate::log::lemma_values_after_write;
use crate::log::stored_values;
use crate::log::rec_key;
use crate::log::rec_len;
use crate::log::rec_value;
use crate::log::record_fault;
use crate::log::replay;
use crate::log::replay_from;
use crate::log::scan;
use crate::log::scan_from;
use crate::log::rec_flags;
use crate::log::rec_key_size;
use crate::log::rec_value_size;
use crate::index::KeyIndex;
use crate::model::InMemoryEntry;
use crate::model::NewEntry;
use crate::model::OnDiskEntry;
use crate::model::key_byte_len;
use crate::strings::str_from_utf8;
use crate::strings::utf8_error_message;
use crate::strings::utf8_error_text;
use crate::strings::io_error_text;

verus! {

/// Declares `std::io::Error` to Verus as an opaque type, so that an error can
/// carry one; nothing is claimed of what it holds.
#[verifier::external_type_specification]
#[verifier::external_body]
pub struct ExIoError(std::io::Error);

/// Errors that can be returned by [`Engine`] operations.
#[derive(Debug)]
pub enum EngineError {
    /// No entry exists for the given key.
    NoSuchKey,
    /// An IO error occurred while accessing the store file.
    Io(std::io::Error),
    /// The store file contains unexpected or invalid data.
    CorruptStore(String),
    /// The store file ends mid-entry.
    TruncatedStore,
}

impl EngineError {
    /// The error's message. For an I/O error it is `IO error: ` followed by
    /// the I/O error's own message.
    pub fn message(&self) -> (r: String)
        ensures
            match self {
                EngineError::NoSuchKey => r@ == "No entry found for the given key"@,
                EngineError::Io(_) => exists|t: Seq<char>| r@ == "IO error: "@ + t,
                EngineError::CorruptStore(msg) => r@ == "Store file is corrupted: "@ + msg@,
                EngineError::TruncatedStore => r@ == "Store file is truncated"@,
            },
    {
        match self {
            EngineError::NoSuchKey => "No entry found for the given key".to_owned(),
            EngineError::Io(e) => {
                let text = io_error_text(e);
                let r = "IO error: ".to_owned().concat(text.as_str());
                assert(r@ == "IO error: "@ + text@);
                r
            },
            EngineError::CorruptStore(msg) => "Store file is corrupted: ".to_owned().concat(msg.as_str()),
            EngineError::TruncatedStore => "Store file is truncated".to_owned(),
        }
    }
}

/// The message of the error that replay gives for an entry whose size overflows.
pub open spec fn overflow_message() -> Seq<char> {
    "integer overflow computing entry size"@
}

/// The error that [`Engine::open`] gives for a log whose replay fails.
pub open spec fn replay_error_matches(e: &EngineError, fault: ReplayFault) -> bool {
    match (e, fault) {
        (EngineError::TruncatedStore, ReplayFault::Truncated) => true,
        (EngineError::CorruptStore(msg), ReplayFault::SizeOverflow) => msg@ == overflow_message(),
        (EngineError::CorruptStore(msg), ReplayFault::InvalidKey(key_bytes)) => msg@ == utf8_error_text(key_bytes),
        _ => false,
    }
}

/// Decodes the entry that starts at `offset` in the log `data`: its key size,
/// value size, flags, key and whole length, checked in the order replay
/// checks them.
fn decode_record(data: &[u8], offset: usize) -> (r: Result<(u32, u64, u8, String, u64), EngineError>)
    requires
        offset < data@.len(),
    ensures
        match (r, record_fault(data@, offset as int)) {
            (Ok((ks, vs, flags, key, size)), None) => {
                &&& ks == rec_key_size(data@, offset as int)
                &&& vs == rec_value_size(data@, offset as int)
                &&& flags == rec_flags(data@, offset as int)
                &&& key@ == rec_key(data@, offset as int)
                &&& size == rec_len(data@, offset as int)
            },
            (Err(e), Some(fault)) => replay_error_matches(&e, fault),
            _ => false,
        },
{
    if data.len() - offset < 13 {
        return Err(EngineError::TruncatedStore);
    }
    let (key_size, value_size, flags) = decode_header(data, offset);
    let head = 13u64 + key_size as u64;
    let entry_size = match head.checked_add(value_size) {
        Some(n) => n,
        None => {
            return Err(EngineError::CorruptStore("integer overflow computing entry size".to_owned()));
        },
    };
    if ((data.len() - offset) as u64) < entry_size {
        return Err(EngineError::TruncatedStore);
    }
    let key_start = offset + 13;
    let key_end = key_start + key_size as usize;
    let key_data = slice_subrange(data, key_start, key_end);
    let key = match str_from_utf8(key_data) {
        Ok(s) => {
            proof {
                encode_utf8_decode_utf8(s@);
            }
            s.to_owned()
        },
        Err(_) => {
            return Err(EngineError::CorruptStore(utf8_error_message(key_data)));
        },
    };
    Ok((key_size, value_size, flags, key, entry_size))
}

/// Lists every entry of the log `contents`, tombstones included, with the
/// offset where it begins, in log order.
///
/// Fails as [`Engine::open`] does, on the same entry.
pub fn scan_log(contents: &[u8]) -> (r: Result<Vec<(u64, OnDiskEntry)>, EngineError>)
    ensures
        match (r, scan(contents@)) {
            (Ok(v), Ok(offs)) => {
                &&& v@.len() == offs.len()
                &&& forall|i: int| 0 <= i < v@.len() ==> v@[i].0 == offs[i] && holds_record(contents@, offs[i], #[trigger] v@[i].1)
            },
            (Err(e), Err(fault)) => replay_error_matches(&e, fault),
            _ => false,
        },
{
    let mut out: Vec<(u64, OnDiskEntry)> = Vec::new();
    let mut offset: usize = 0;
    while offset < contents.len()
        invariant
            offset <= contents@.len(),
            forall|i: int| 0 <= i < out@.len() ==> holds_record(contents@, out@[i].0 as int, #[trigger] out@[i].1),
            scan(contents@) == match scan_from(contents@, offset as int) {
                Ok(rest) => Ok(offsets_of(out@) + rest),
                Err(f) => Err::<Seq<int>, ReplayFault>(f),
            },
        decreases contents@.len() - offset,
    {
        let (key_size, value_size, flags, key, entry_size) = decode_record(contents, offset)?;
        let value_start = offset + 13 + key_size as usize;
        let value_end = offset + entry_size as usize;
        let value = slice_to_vec(slice_subrange(contents, value_start, value_end));
        let ghost out0 = out@;
        let entry = OnDiskEntry { key_size, value_size, flags, key, value };
        assert(holds_record(contents@, offset as int, entry));
        out.push((offset as u64, entry));
        proof {
            assert(offsets_of(out@) =~= offsets_of(out0).push(offset as int));
            assert forall|i: int| 0 <= i < out@.len() implies holds_record(contents@, out@[i].0 as int, #[trigger] out@[i].1) by {
                if i < out0.len() {
                    assert(out@[i] == out0[i]);
                }
            }
            if let Ok(rest) = scan_from(contents@, offset + entry_size) {
                assert(offsets_of(out0) + (seq![offset as int] + rest) =~= offsets_of(out@) + rest);
            }
        }
        offset = offset + entry_size as usize;
    }
    proof {
        assert(scan_from(contents@, offset as int) == Ok::<Seq<int>, ReplayFault>(Seq::empty()));
        assert(offsets_of(out@) + Seq::<int>::empty() =~= offsets_of(out@));
    }
    Ok(out)
}

/// The offsets of a list of entries.
pub open spec fn offsets_of(v: Seq<(u64, OnDiskEntry)>) -> Seq<int> {
    v.map_values(|p: (u64, OnDiskEntry)| p.0 as int)
}

/// Decoding what `encode_entry` writes gives the entry back: the bytes of an
/// entry whose sizes are those of its key and value form one whole entry, and
/// that entry is the one that was encoded.
pub proof fn lemma_encoded_entry_reads_back(entry: OnDiskEntry)
    requires
        entry.sizes_match(),
        13 + entry.key_size + entry.value_size <= u64::MAX,
    ensures
        record_fault(encoded(entry), 0) is None,
        rec_len(encoded(entry), 0) == encoded(entry).len(),
        holds_record(encoded(entry), 0, entry),
{
    let empty = Seq::<u8>::empty();
    lemma_appended_record(empty, entry.flags, entry.key@, entry.value@);
    assert(empty + encoded(entry) =~= encoded(entry));
    let d = encoded(entry);
    assert(rec_key_size(d, 0) == entry.key_size && rec_value_size(d, 0) == entry.value_size) by {
        assert(d.subrange(0, 4) =~= crate::io::u32_be_bytes(entry.key_size));
        assert(d.subrange(4, 12) =~= crate::io::u64_be_bytes(entry.value_size));
        crate::io::lemma_u32_roundtrip(d, 0, entry.key_size);
        crate::io::lemma_u64_roundtrip(d, 4, entry.value_size);
    }
}

// ---------------------------------------------------------------------------
// Writes.

/// One entry to be appended to the log: the bytes to append, with the key
/// they are for and whether they delete it.
pub struct LogWrite {
    key: String,
    record: Vec<u8>,
    tombstone: bool,
    value: Ghost<Seq<u8>>,
}

impl LogWrite {
    /// The key the write is for.
    pub closed spec fn key(&self) -> Seq<char> {
        self.key@
    }

    /// The bytes to append to the log.
    pub closed spec fn bytes(&self) -> Seq<u8> {
        self.record@
    }

    /// Whether the write deletes its key.
    pub closed spec fn is_delete(&self) -> bool {
        self.tombstone
    }

    /// The value the write stores (empty for a delete).
    pub closed spec fn value(&self) -> Seq<u8> {
        self.value@
    }

    /// The bytes are those of one entry for the key and value: a tombstone for a
    /// delete, a live entry otherwise.
    pub open spec fn valid(&self) -> bool {
        &&& key_byte_len(self.key()) <= u32::MAX
        &&& 13 + key_byte_len(self.key()) + self.value().len() <= u64::MAX
        &&& self.is_delete() ==> self.value().len() == 0
        &&& self.bytes() == entry_bytes(
            key_byte_len(self.key()) as u32,
            self.value().len() as u64,
            if self.is_delete() { 1u8 } else { 0u8 },
            encode_utf8(self.key()),
            self.value(),
        )
    }

    /// The bytes to append to the log.
    pub fn record(&self) -> (r: &[u8])
        ensures
            r@ == self.bytes(),
    {
        self.record.as_slice()
    }
}

/// Whether two byte strings are equal.
fn bytes_equal(a: &[u8], b: &[u8]) -> (r: bool)
    ensures
        r == (a@ == b@),
{
    if a.len() != b.len() {
        return false;
    }
    let mut i: usize = 0;
    while i < a.len()
        invariant
            a@.len() == b@.len(),
            i <= a@.len(),
            forall|j: int| 0 <= j < i ==> a@[j] == b@[j],
        decreases a@.len() - i,
    {
        if a[i] != b[i] {
            return false;
        }
        i = i + 1;
    }
    assert(a@ =~= b@);
    true
}

// ---------------------------------------------------------------------------
// The engine.

/// The core key-value store engine.
///
/// `Engine` holds a compact in-memory index that maps each key to the byte
/// offset of its latest entry in the append-only log. The index is
/// reconstructed by replaying the log on [`Engine::open`].
pub struct Engine {
    index: KeyIndex,
    log_len: u64,
    log: Ghost<Seq<u8>>,
}

impl View for Engine {
    type V = Map<Seq<char>, u64>;

    /// The index: each live key mapped to the offset of its latest entry.
    closed spec fn view(&self) -> Map<Seq<char>, u64> {
        self.index@
    }
}

impl Engine {
    /// The bytes of the log the engine stands for.
    pub closed spec fn log(&self) -> Seq<u8> {
        self.log@
    }

    /// What the store holds: each live key with the value of its latest entry.
    pub closed spec fn values(&self) -> Map<Seq<char>, Seq<u8>> {
        stored_values(self.log@)
    }

    /// The index is the replay of the log, and the log fits the file sizes
    /// that a `u64` counts.
    pub closed spec fn wf(&self) -> bool {
        &&& self.index.wf()
        &&& self.log_len == self.log@.len()
        &&& replay(self.log@) == Ok::<Map<Seq<char>, u64>, ReplayFault>(self.index@)
    }

    /// Replays the log `data` into the index it stands for.
    ///
    /// Like the whole store, the log may be empty; a log that ends inside an
    /// entry, even inside a header, is truncated.
    pub fn replay_store(data: &[u8]) -> (r: Result<KeyIndex, EngineError>)
        ensures
            match (r, replay(data@)) {
                (Ok(v), Ok(m)) => v.wf() && v@ == m,
                (Err(e), Err(fault)) => replay_error_matches(&e, fault),
                _ => false,
            },
    {
        let mut res = KeyIndex::new();
        if data.len() == 0 {
            return Ok(res);
        } else if data.len() < 13 {
            return Err(EngineError::TruncatedStore);
        }
        let mut offset: usize = 0;
        while offset < data.len()
            invariant
                offset <= data@.len(),
                res.wf(),
                replay_from(data@, offset as int, res@) == replay(data@),
            decreases data@.len() - offset,
        {
            let ghost m = res@;
            let (_, _, flags, key, entry_size) = decode_record(data, offset)?;
            assert(key@ == rec_key(data@, offset as int));
            if flags & 1u8 == 1u8 {
                res.remove(&key);
            } else {
                res.insert(key, offset as u64);
            }
            assert(res@ == apply_record(data@, offset as int, m));
            offset = offset + entry_size as usize;
        }
        Ok(res)
    }

    /// Opens the store whose log holds `contents`: the in-memory index is
    /// populated by replaying the log from the beginning.
    ///
    /// Returns [`EngineError::TruncatedStore`] if the log ends inside an entry,
    /// and [`EngineError::CorruptStore`] if an entry's size overflows or its key
    /// is not valid UTF-8 (with the message that std's UTF-8 error gives for
    /// the key's bytes): the first entry that fails decides.
    pub fn open(contents: &[u8]) -> (r: Result<Engine, EngineError>)
        ensures
            match (r, replay(contents@)) {
                (Ok(e), Ok(m)) => e.wf() && e.log() == contents@ && e@ == m && e.values() == stored_values(contents@),
                (Err(e), Err(fault)) => replay_error_matches(&e, fault),
                _ => false,
            },
    {
        let index = Self::replay_store(contents)?;
        Ok(Engine { index, log_len: contents.len() as u64, log: Ghost(contents@) })
    }

    /// The offset in the log of the latest entry for `key`.
    ///
    /// Returns [`EngineError::NoSuchKey`] if the key does not exist or has been deleted.
    pub fn locate(&self, key: &str) -> (r: Result<u64, EngineError>)
        requires
            self.wf(),
        ensures
            match r {
                Ok(off) => self@.contains_key(key@) && off == self@[key@],
                Err(e) => e is NoSuchKey && !self@.contains_key(key@),
            },
    {
        let key = key.to_owned();
        match self.index.get(&key) {
            Some(offset) => Ok(offset),
            None => Err(EngineError::NoSuchKey),
        }
    }

    /// The length of the log.
    pub fn log_len(&self) -> (r: u64)
        requires
            self.wf(),
        ensures
            r == self.log().len(),
    {
        self.log_len
    }

    /// Prepares the write of `value` for `key`.
    ///
    /// `current` is what reading `key` gave. If it already holds the same
    /// `value`, nothing is to be written (`None`), to avoid creating unnecessary
    /// log entries. Otherwise the write holds the encoded entry for `key` and
    /// `value`; the caller appends its bytes to the store and then applies it.
    pub fn set(&self, key: &str, value: &[u8], current: &Result<Vec<u8>, EngineError>) -> (r: Option<LogWrite>)
        requires
            key_byte_len(key@) <= u32::MAX,
            13 + key_byte_len(key@) + value@.len() <= u64::MAX,
        ensures
            r is None <==> (current matches Ok(cv) && cv@ == value@),
            (current matches Ok(cv) && self.values().contains_key(key@) && cv@ == self.values()[key@])
                ==> (r is None <==> self.values()[key@] == value@),
            r matches Some(w) ==> {
                &&& w.valid()
                &&& w.key() == key@
                &&& w.value() == value@
                &&& !w.is_delete()
            },
    {
        if let Ok(cv) = current {
            if bytes_equal(cv.as_slice(), value) {
                return None;
            }
        }
        let entry = OnDiskEntry::from_new_entry(NewEntry { key: key.to_owned(), value: slice_to_vec(value) });
        let record = encode_entry(&entry);
        Some(LogWrite { key: entry.key, record, tombstone: false, value: Ghost(value@) })
    }

    /// Prepares the deletion of `key`: a tombstone entry to append to the log.
    ///
    /// Returns [`EngineError::NoSuchKey`] if the key does not exist.
    pub fn delete(&self, key: &str) -> (r: Result<LogWrite, EngineError>)
        requires
            self.wf(),
        ensures
            match r {
                Ok(w) => {
                    &&& self@.contains_key(key@)
                    &&& w.valid()
                    &&& w.key() == key@
                    &&& w.is_delete()
                },
                Err(e) => e is NoSuchKey && !self@.contains_key(key@),
            },
    {
        let key = key.to_owned();
        match self.index.get(&key) {
            Some(offset) => {
                proof {
                    self.lemma_index_entries_live(key@);
                }
                let ime = InMemoryEntry { key, offset };
                let entry = OnDiskEntry::tombstone_for(&ime);
                let record = encode_entry(&entry);
                Ok(LogWrite { key: entry.key, record, tombstone: true, value: Ghost(Seq::empty()) })
            },
            None => Err(EngineError::NoSuchKey),
        }
    }

    /// Records a write whose bytes have been appended to the log: the log
    /// grows by those bytes, and the index maps the key to the offset where
    /// they begin, or drops the key for a delete.
    pub fn apply(&mut self, w: &LogWrite)
        requires
            old(self).wf(),
            w.valid(),
            old(self).log().len() + w.bytes().len() <= u64::MAX,
        ensures
            final(self).wf(),
            final(self).log() == old(self).log() + w.bytes(),
            final(self)@ == (if w.is_delete() {
                old(self)@.remove(w.key())
            } else {
                old(self)@.insert(w.key(), old(self).log().len() as u64)
            }),
            final(self).values() == (if w.is_delete() {
                old(self).values().remove(w.key())
            } else {
                old(self).values().insert(w.key(), w.value())
            }),
    {
        let ghost old_log = self.log@;
        proof {
            let flags: u8 = if w.tombstone { 1u8 } else { 0u8 };
            assert(1u8 & 1u8 == 1u8) by (bit_vector);
            assert(0u8 & 1u8 == 0u8) by (bit_vector);
            lemma_replay_after_write(old_log, flags, w.key@, w.value@);
            lemma_values_after_write(old_log, flags, w.key@, w.value@);
        }
        if w.tombstone {
            self.index.remove(&w.key);
        } else {
            self.index.insert(w.key.clone(), self.log_len);
        }
        self.log_len = self.log_len + w.record.len() as u64;
        self.log = Ghost(old_log + w.record@);
    }

    /// Returns all keys currently present in the store, each once.
    pub fn get_all_keys(&self) -> (r: Vec<String>)
        requires
            self.wf(),
        ensures
            forall|i: int| 0 <= i < r@.len() ==> self@.contains_key(#[trigger] r@[i]@),
            forall|k: Seq<char>| #[trigger] self@.contains_key(k) ==> exists|i: int| 0 <= i < r@.len() && r@[i]@ == k,
            forall|i: int, j: int| 0 <= i < r@.len() && 0 <= j < r@.len() && i != j ==> r@[i]@ != r@[j]@,
    {
        self.index.keys()
    }

    /// Erases all data: the log becomes empty and so does the index.
    pub fn reset_store(&mut self)
        ensures
            final(self).wf(),
            final(self).log() == Seq::<u8>::empty(),
            final(self)@ == Map::<Seq<char>, u64>::empty(),
            final(self).values() == Map::<Seq<char>, Seq<u8>>::empty(),
    {
        self.index.clear();
        self.log_len = 0;
        self.log = Ghost(Seq::empty());
        proof {
            lemma_replay_empty();
            assert(stored_values(self.log@) =~= Map::<Seq<char>, Seq<u8>>::empty());
        }
    }

    /// Reopening a store gives the index the engine holds: the index is always
    /// the replay of the log.
    pub proof fn lemma_reopen_gives_same_index(&self)
        requires
            self.wf(),
        ensures
            replay(self.log()) == Ok::<Map<Seq<char>, u64>, ReplayFault>(self@),
            self.values() == stored_values(self.log()),
    {
    }

    /// What a read gives back of a write: once a write of a value for a key
    /// has been applied (the log grew by its bytes and the index maps the key
    /// to where they begin), the latest entry for that key is whole and live,
    /// holds the key, and its value bytes are the value written.
    pub proof fn lemma_read_after_write(&self, w: &LogWrite, after: &Engine)
        requires
            self.wf(),
            w.valid(),
            !w.is_delete(),
            after.log() == self.log() + w.bytes(),
            after@ == self@.insert(w.key(), self.log().len() as u64),
        ensures
            after@.contains_key(w.key()),
            live_record(after.log(), after@[w.key()] as int, w.key()),
            rec_value(after.log(), after@[w.key()] as int) == w.value(),
    {
        assert(0u8 & 1u8 == 0u8) by (bit_vector);
        lemma_replay_after_write(self.log(), 0u8, w.key(), w.value());
    }

    /// The keys that hold values are the keys of the index.
    pub proof fn lemma_values_keys(&self)
        requires
            self.wf(),
        ensures
            self.values().dom() == self@.dom(),
    {
        assert(self.values().dom() =~= self@.dom());
    }

    /// What a read gives back: the entry the index points to for a live key is
    /// whole, live and holds the key, and its value is the value the store holds
    /// for the key, the one the last write of the key set. Reading it with
    /// `read_entry_at` therefore gives that value.
    pub proof fn lemma_get_reads_last_value(&self, key: Seq<char>)
        requires
            self.wf(),
            self@.contains_key(key),
        ensures
            live_record(self.log(), self@[key] as int, key),
            self.values().contains_key(key),
            rec_value(self.log(), self@[key] as int) == self.values()[key],
    {
        self.lemma_index_entries_live(key);
    }

    /// Each key of the index maps to a whole, live entry of the log that holds
    /// that key, and the key's bytes fit the 4-byte size field.
    pub proof fn lemma_index_entries_live(&self, key: Seq<char>)
        requires
            self.wf(),
            self@.contains_key(key),
        ensures
            live_record(self.log(), self@[key] as int, key),
            key_byte_len(key) <= u32::MAX,
    {
        lemma_replay_index_live(self.log@);
        assert(replay(self.log@)->Ok_0.contains_key(key));
        let off = self@[key] as int;
        let kb = crate::log::rec_key_bytes(self.log@, off);
        decode_utf8_encode_utf8(kb);
    }
}

} // verus!
