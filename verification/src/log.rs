//! What the log means: the replay that turns the bytes of a log into the index
//! of live keys, and the facts about it that the engine relies on.

use vstd::prelude::*;
use vstd::utf8::*;

use crate::io::be_u32_at;
use crate::io::be_u64_at;
use crate::io::entry_bytes;
use crate::io::lemma_u32_roundtrip;
use crate::io::lemma_u64_roundtrip;
use crate::model::OnDiskEntry;
use crate::model::is_tombstone_flag;

verus! {

/// Why a log cannot be replayed: the first entry that fails decides.
pub enum ReplayFault {
    /// The log ends inside an entry (its header or its body).
    Truncated,
    /// An entry's declared size does not fit in a `u64`.
    SizeOverflow,
    /// An entry's key is not valid UTF-8; these are its bytes.
    InvalidKey(Seq<u8>),
}

/// The key size declared by the entry at `off`.
pub open spec fn rec_key_size(data: Seq<u8>, off: int) -> u32 {
    be_u32_at(data, off)
}

/// The value size declared by the entry at `off`.
pub open spec fn rec_value_size(data: Seq<u8>, off: int) -> u64 {
    be_u64_at(data, off + 4)
}

/// The flags byte of the entry at `off`.
pub open spec fn rec_flags(data: Seq<u8>, off: int) -> u8 {
    data[off + 12]
}

/// The whole length (header, key and value) that the entry at `off` declares.
pub open spec fn rec_len(data: Seq<u8>, off: int) -> int {
    13 + rec_key_size(data, off) + rec_value_size(data, off)
}

/// The key bytes of the entry at `off`.
pub open spec fn rec_key_bytes(data: Seq<u8>, off: int) -> Seq<u8> {
    data.subrange(off + 13, off + 13 + rec_key_size(data, off))
}

/// The value bytes of the entry at `off`.
pub open spec fn rec_value(data: Seq<u8>, off: int) -> Seq<u8> {
    data.subrange(off + 13 + rec_key_size(data, off), off + rec_len(data, off))
}

/// The key of the entry at `off`.
pub open spec fn rec_key(data: Seq<u8>, off: int) -> Seq<char> {
    decode_utf8(rec_key_bytes(data, off))
}

/// What is wrong with the entry that starts at `off`, checked in the order in
/// which replay checks it; `None` when the entry is whole and its key is UTF-8.
pub open spec fn record_fault(data: Seq<u8>, off: int) -> Option<ReplayFault> {
    if off + 13 > data.len() {
        Some(ReplayFault::Truncated)
    } else if rec_len(data, off) > u64::MAX {
        Some(ReplayFault::SizeOverflow)
    } else if off + rec_len(data, off) > data.len() {
        Some(ReplayFault::Truncated)
    } else if !valid_utf8(rec_key_bytes(data, off)) {
        Some(ReplayFault::InvalidKey(rec_key_bytes(data, off)))
    } else {
        None
    }
}

/// The index after the entry at `off` is replayed onto `m`: a tombstone drops
/// its key, any other entry maps its key to `off`.
pub open spec fn apply_record(data: Seq<u8>, off: int, m: Map<Seq<char>, u64>) -> Map<Seq<char>, u64> {
    if is_tombstone_flag(rec_flags(data, off)) {
        m.remove(rec_key(data, off))
    } else {
        m.insert(rec_key(data, off), off as u64)
    }
}

/// Replays the entries of `data` from `off` to the end onto the index `m`.
pub open spec fn replay_from(data: Seq<u8>, off: int, m: Map<Seq<char>, u64>) -> Result<Map<Seq<char>, u64>, ReplayFault>
    decreases data.len() - off,
{
    if off < 0 || off >= data.len() {
        Ok(m)
    } else if record_fault(data, off) is Some {
        Err(record_fault(data, off)->0)
    } else {
        replay_from(data, off + rec_len(data, off), apply_record(data, off, m))
    }
}

/// The index that replaying the whole log gives: each live key mapped to the
/// offset of its latest entry.
pub open spec fn replay(data: Seq<u8>) -> Result<Map<Seq<char>, u64>, ReplayFault> {
    replay_from(data, 0, Map::empty())
}

/// `entry` is the entry that starts at `off` in the log `data`.
pub open spec fn holds_record(data: Seq<u8>, off: int, entry: OnDiskEntry) -> bool {
    &&& entry.key_size == rec_key_size(data, off)
    &&& entry.value_size == rec_value_size(data, off)
    &&& entry.flags == rec_flags(data, off)
    &&& entry.key@ == rec_key(data, off)
    &&& entry.value@ == rec_value(data, off)
}

/// The entry at `off` is whole, live, and holds `key`.
pub open spec fn live_record(data: Seq<u8>, off: int, key: Seq<char>) -> bool {
    &&& 0 <= off
    &&& record_fault(data, off) is None
    &&& rec_key(data, off) == key
    &&& !is_tombstone_flag(rec_flags(data, off))
}

/// Extending a log leaves the entries it already holds as they were: replaying
/// the longer log runs over the same entries and then goes on from the old end.
pub proof fn lemma_replay_prefix(data: Seq<u8>, extra: Seq<u8>, off: int, m: Map<Seq<char>, u64>)
    requires
        0 <= off <= data.len(),
        replay_from(data, off, m) is Ok,
    ensures
        replay_from(data + extra, off, m) == replay_from(data + extra, data.len() as int, replay_from(data, off, m)->Ok_0),
    decreases data.len() - off,
{
    if off < data.len() {
        lemma_record_prefix(data, extra, off);
        lemma_replay_prefix(data, extra, off + rec_len(data, off), apply_record(data, off, m));
    }
}

/// An entry that lies whole inside a log reads the same in any extension of it.
pub proof fn lemma_record_prefix(data: Seq<u8>, extra: Seq<u8>, off: int)
    requires
        0 <= off < data.len(),
        record_fault(data, off) is None,
    ensures
        record_fault(data + extra, off) is None,
        rec_key_size(data + extra, off) == rec_key_size(data, off),
        rec_value_size(data + extra, off) == rec_value_size(data, off),
        rec_len(data + extra, off) == rec_len(data, off),
        rec_key(data + extra, off) == rec_key(data, off),
        rec_flags(data + extra, off) == rec_flags(data, off),
        rec_value(data + extra, off) == rec_value(data, off),
        apply_record(data + extra, off, Map::empty()) == apply_record(data, off, Map::empty()),
        forall|m: Map<Seq<char>, u64>| apply_record(data + extra, off, m) == #[trigger] apply_record(data, off, m),
{
    let d2 = data + extra;
    assert(d2.subrange(0, data.len() as int) == data);
    assert forall|i: int| 0 <= i < data.len() implies d2[i] == data[i] by {}
    assert(rec_key_size(d2, off) == rec_key_size(data, off));
    assert(rec_value_size(d2, off) == rec_value_size(data, off));
    assert(rec_key_bytes(d2, off) == rec_key_bytes(data, off));
    assert(rec_value(d2, off) == rec_value(data, off));
}

/// Replaying an entry that has just been appended: the bytes `entry_bytes(..)`
/// at the end of a log form one whole entry, whose key, flags and value are
/// those that were written.
pub proof fn lemma_appended_record(data: Seq<u8>, flags: u8, key: Seq<char>, value: Seq<u8>)
    requires
        encode_utf8(key).len() <= u32::MAX,
        value.len() <= u64::MAX,
        13 + encode_utf8(key).len() + value.len() <= u64::MAX,
    ensures
        ({
            let rec = entry_bytes(encode_utf8(key).len() as u32, value.len() as u64, flags, encode_utf8(key), value);
            let d2 = data + rec;
            let off = data.len() as int;
            &&& record_fault(d2, off) is None
            &&& rec_key_size(d2, off) == encode_utf8(key).len()
            &&& rec_value_size(d2, off) == value.len()
            &&& rec_len(d2, off) == rec.len()
            &&& rec_key(d2, off) == key
            &&& rec_flags(d2, off) == flags
            &&& rec_value(d2, off) == value
        }),
{
    let kb = encode_utf8(key);
    let ks = kb.len() as u32;
    let vs = value.len() as u64;
    let rec = entry_bytes(ks, vs, flags, kb, value);
    let d2 = data + rec;
    let off = data.len() as int;
    assert(d2.subrange(off, off + 4) == crate::io::u32_be_bytes(ks));
    lemma_u32_roundtrip(d2, off, ks);
    assert(d2.subrange(off + 4, off + 12) == crate::io::u64_be_bytes(vs));
    lemma_u64_roundtrip(d2, off + 4, vs);
    assert(d2[off + 12] == flags);
    assert(rec_key_bytes(d2, off) == kb);
    assert(rec_value(d2, off) == value);
    encode_utf8_valid_utf8(key);
    encode_utf8_decode_utf8(key);
}

/// Every key of a replayed index maps to a whole, live entry of the log that
/// holds that key.
pub proof fn lemma_replay_live(data: Seq<u8>, off: int, m: Map<Seq<char>, u64>)
    requires
        0 <= off,
        data.len() <= u64::MAX,
        replay_from(data, off, m) is Ok,
        forall|k: Seq<char>| #[trigger] m.contains_key(k) ==> live_record(data, m[k] as int, k),
    ensures
        forall|k: Seq<char>| #[trigger] replay_from(data, off, m)->Ok_0.contains_key(k)
            ==> live_record(data, replay_from(data, off, m)->Ok_0[k] as int, k),
    decreases data.len() - off,
{
    if off < data.len() {
        let m2 = apply_record(data, off, m);
        assert forall|k: Seq<char>| #[trigger] m2.contains_key(k) implies live_record(data, m2[k] as int, k) by {
            if k == rec_key(data, off) {
            } else {
                assert(m.contains_key(k));
            }
        }
        lemma_replay_live(data, off + rec_len(data, off), m2);
    }
}

/// Every key of the index that replaying a log gives maps to a whole, live
/// entry of that log that holds that key.
pub proof fn lemma_replay_index_live(data: Seq<u8>)
    requires
        data.len() <= u64::MAX,
        replay(data) is Ok,
    ensures
        forall|k: Seq<char>| #[trigger] replay(data)->Ok_0.contains_key(k)
            ==> live_record(data, replay(data)->Ok_0[k] as int, k),
{
    lemma_replay_live(data, 0, Map::empty());
}


/// What a write does to the replay of a log: appending one entry for `key`
/// maps `key` to the entry's offset (the old end of the log), or drops it for a
/// tombstone, and leaves every other key as it was. The appended entry is
/// whole, holds `key`, and its value bytes are `value`.
pub proof fn lemma_replay_after_write(data: Seq<u8>, flags: u8, key: Seq<char>, value: Seq<u8>)
    requires
        replay(data) is Ok,
        data.len() <= u64::MAX,
        encode_utf8(key).len() <= u32::MAX,
        13 + encode_utf8(key).len() + value.len() <= u64::MAX,
    ensures
        ({
            let rec = entry_bytes(encode_utf8(key).len() as u32, value.len() as u64, flags, encode_utf8(key), value);
            let d2 = data + rec;
            let m = replay(data)->Ok_0;
            &&& replay(d2) == Ok::<Map<Seq<char>, u64>, ReplayFault>(
                if is_tombstone_flag(flags) { m.remove(key) } else { m.insert(key, data.len() as u64) })
            &&& record_fault(d2, data.len() as int) is None
            &&& rec_key(d2, data.len() as int) == key
            &&& rec_value(d2, data.len() as int) == value
        }),
{
    let rec = entry_bytes(encode_utf8(key).len() as u32, value.len() as u64, flags, encode_utf8(key), value);
    let d2 = data + rec;
    let m = replay(data)->Ok_0;
    let off = data.len() as int;
    lemma_replay_prefix(data, rec, 0, Map::empty());
    lemma_appended_record(data, flags, key, value);
    assert(rec.len() >= 13);
    assert(off + rec_len(d2, off) == d2.len());
    assert(replay_from(d2, off, m) == replay_from(d2, off + rec_len(d2, off), apply_record(d2, off, m)));
    assert(replay_from(d2, d2.len() as int, apply_record(d2, off, m)) == Ok::<Map<Seq<char>, u64>, ReplayFault>(apply_record(d2, off, m)));
}

/// Replaying the empty log gives the empty index.
pub proof fn lemma_replay_empty()
    ensures
        replay(Seq::<u8>::empty()) == Ok::<Map<Seq<char>, u64>, ReplayFault>(Map::empty()),
{
}


/// The offsets of the entries of `data` from `off` to the end, or the fault of
/// the first entry that cannot be read: the entries that inspecting a log lists.
pub open spec fn scan_from(data: Seq<u8>, off: int) -> Result<Seq<int>, ReplayFault>
    decreases data.len() - off,
{
    if off < 0 || off >= data.len() {
        Ok(Seq::empty())
    } else if record_fault(data, off) is Some {
        Err(record_fault(data, off)->0)
    } else {
        match scan_from(data, off + rec_len(data, off)) {
            Ok(rest) => Ok(seq![off] + rest),
            Err(f) => Err(f),
        }
    }
}

/// The offsets of all entries of a log.
pub open spec fn scan(data: Seq<u8>) -> Result<Seq<int>, ReplayFault> {
    scan_from(data, 0)
}

/// Listing the entries of a log and replaying it fail on the same entry, with
/// the same fault, and succeed together.
pub proof fn lemma_scan_agrees_with_replay(data: Seq<u8>, off: int, m: Map<Seq<char>, u64>)
    ensures
        scan_from(data, off) is Ok <==> replay_from(data, off, m) is Ok,
        scan_from(data, off) is Err ==> scan_from(data, off)->Err_0 == replay_from(data, off, m)->Err_0,
    decreases data.len() - off,
{
    if 0 <= off < data.len() && record_fault(data, off) is None {
        lemma_scan_agrees_with_replay(data, off + rec_len(data, off), apply_record(data, off, m));
    }
}

/// The value each key of the index `idx` holds in the log `data`: the value
/// bytes of the entry the index points to.
pub open spec fn values_of(data: Seq<u8>, idx: Map<Seq<char>, u64>) -> Map<Seq<char>, Seq<u8>> {
    Map::new(|k: Seq<char>| idx.contains_key(k), |k: Seq<char>| rec_value(data, idx[k] as int))
}

/// What a store holds: each live key with the value of its latest entry.
pub open spec fn stored_values(data: Seq<u8>) -> Map<Seq<char>, Seq<u8>> {
    values_of(data, replay(data)->Ok_0)
}

/// What a write does to what a store holds: appending an entry for `key` sets
/// `key` to `value`, or removes `key` for a tombstone, and every other key keeps
/// its value.
pub proof fn lemma_values_after_write(data: Seq<u8>, flags: u8, key: Seq<char>, value: Seq<u8>)
    requires
        replay(data) is Ok,
        data.len() <= u64::MAX,
        encode_utf8(key).len() <= u32::MAX,
        13 + encode_utf8(key).len() + value.len() <= u64::MAX,
    ensures
        ({
            let rec = entry_bytes(encode_utf8(key).len() as u32, value.len() as u64, flags, encode_utf8(key), value);
            stored_values(data + rec) == if is_tombstone_flag(flags) {
                stored_values(data).remove(key)
            } else {
                stored_values(data).insert(key, value)
            }
        }),
{
    let rec = entry_bytes(encode_utf8(key).len() as u32, value.len() as u64, flags, encode_utf8(key), value);
    let d2 = data + rec;
    lemma_replay_after_write(data, flags, key, value);
    lemma_replay_index_live(data);
    let m = replay(data)->Ok_0;
    let m2 = replay(d2)->Ok_0;
    let expected = if is_tombstone_flag(flags) {
        stored_values(data).remove(key)
    } else {
        stored_values(data).insert(key, value)
    };
    assert forall|k: Seq<char>| #[trigger] stored_values(d2).contains_key(k) implies stored_values(d2)[k] == expected[k] by {
        if k != key {
            assert(m.contains_key(k));
            assert(live_record(data, m[k] as int, k));
            lemma_record_prefix(data, rec, m[k] as int);
        }
    }
    assert(stored_values(d2) =~= expected);
}

/// Extending a log leaves the entries listed for it as they were: listing the
/// longer log lists them, then goes on from the old end.
pub proof fn lemma_scan_prefix(data: Seq<u8>, extra: Seq<u8>, off: int)
    requires
        0 <= off <= data.len(),
        scan_from(data, off) is Ok,
    ensures
        scan_from(data + extra, off) == match scan_from(data + extra, data.len() as int) {
            Ok(rest) => Ok(scan_from(data, off)->Ok_0 + rest),
            Err(f) => Err::<Seq<int>, ReplayFault>(f),
        },
    decreases data.len() - off,
{
    if off == data.len() {
        if let Ok(rest) = scan_from(data + extra, data.len() as int) {
            assert(Seq::<int>::empty() + rest =~= rest);
        }
    } else {
        lemma_record_prefix(data, extra, off);
        let next = off + rec_len(data, off);
        lemma_scan_prefix(data, extra, next);
        if let Ok(rest) = scan_from(data + extra, data.len() as int) {
            let mid = scan_from(data, next)->Ok_0;
            assert(seq![off] + (mid + rest) =~= (seq![off] + mid) + rest);
        }
    }
}

/// Inspecting lists every entry: after an entry is appended to a log that
/// lists, the longer log lists the same entries and then the new one, at the
/// old end of the log.
pub proof fn lemma_scan_after_write(data: Seq<u8>, flags: u8, key: Seq<char>, value: Seq<u8>)
    requires
        scan(data) is Ok,
        encode_utf8(key).len() <= u32::MAX,
        13 + encode_utf8(key).len() + value.len() <= u64::MAX,
    ensures
        ({
            let rec = entry_bytes(encode_utf8(key).len() as u32, value.len() as u64, flags, encode_utf8(key), value);
            scan(data + rec) == Ok::<Seq<int>, ReplayFault>(scan(data)->Ok_0.push(data.len() as int))
        }),
{
    let rec = entry_bytes(encode_utf8(key).len() as u32, value.len() as u64, flags, encode_utf8(key), value);
    let d2 = data + rec;
    let off = data.len() as int;
    lemma_scan_prefix(data, rec, 0);
    lemma_appended_record(data, flags, key, value);
    assert(off + rec_len(d2, off) == d2.len());
    assert(scan_from(d2, d2.len() as int) == Ok::<Seq<int>, ReplayFault>(Seq::empty()));
    assert(scan_from(d2, off) == Ok::<Seq<int>, ReplayFault>(seq![off] + Seq::<int>::empty()));
    assert(scan(data)->Ok_0 + (seq![off] + Seq::<int>::empty()) =~= scan(data)->Ok_0.push(off));
}

/// The entries listed from `off` are every entry from there to the end: the
/// first at `off`, each next one where the one before ends, each whole, and the
/// last ending at the end of the log.
pub proof fn lemma_scan_lists_every_entry(data: Seq<u8>, off: int)
    requires
        0 <= off,
        scan_from(data, off) is Ok,
    ensures
        ({
            let offs = scan_from(data, off)->Ok_0;
            &&& off >= data.len() ==> offs.len() == 0
            &&& off < data.len() ==> {
                &&& offs.len() > 0
                &&& offs[0] == off
                &&& offs[offs.len() - 1] + rec_len(data, offs[offs.len() - 1]) == data.len()
            }
            &&& forall|i: int| 0 <= i < offs.len() ==> record_fault(data, #[trigger] offs[i]) is None
            &&& forall|i: int| 0 <= i < offs.len() - 1 ==> #[trigger] offs[i + 1] == offs[i] + rec_len(data, offs[i])
        }),
    decreases data.len() - off,
{
    if off < data.len() {
        let next = off + rec_len(data, off);
        lemma_scan_lists_every_entry(data, next);
        let rest = scan_from(data, next)->Ok_0;
        let offs = seq![off] + rest;
        assert(scan_from(data, off)->Ok_0 == offs);
        assert forall|i: int| 0 <= i < offs.len() implies record_fault(data, #[trigger] offs[i]) is None by {
            if i > 0 {
                assert(offs[i] == rest[i - 1]);
            }
        }
        assert forall|i: int| 0 <= i < offs.len() - 1 implies #[trigger] offs[i + 1] == offs[i] + rec_len(data, offs[i]) by {
            if i > 0 {
                assert(offs[i] == rest[i - 1] && offs[i + 1] == rest[i]);
                let j = i - 1;
                assert(0 <= j < rest.len() - 1);
                assert(rest[j + 1] == rest[j] + rec_len(data, rest[j]));
            } else {
                assert(offs[1] == rest[0]);
                assert(next < data.len());
            }
        }
    }
}

} // verus!
