use minikvp::engine::scan_log;
use minikvp::engine::Engine;
use minikvp::engine::EngineError;
use minikvp::index::KeyIndex;
use minikvp::io::encode_entry;
use minikvp::io::read_entry_at;
use minikvp::model::NewEntry;
use minikvp::model::OnDiskEntry;

/// A store whose file is a byte vector: the engine decides, the vector is
/// read and appended to as the file would be.
struct MemStore {
    file: Vec<u8>,
    engine: Engine,
}

impl MemStore {
    fn open(file: Vec<u8>) -> MemStore {
        let engine = Engine::open(&file).unwrap();
        MemStore { file, engine }
    }

    fn new() -> MemStore {
        MemStore::open(Vec::new())
    }

    fn reopen(self) -> MemStore {
        MemStore::open(self.file)
    }

    fn get(&self, key: &str) -> Result<Vec<u8>, EngineError> {
        let offset = self.engine.locate(key)?;
        let entry = read_entry_at(&self.file, offset)
            .map_err(|e| EngineError::CorruptStore(e.message()))?;
        assert_eq!(entry.key, key);
        assert_eq!(entry.flags & 1, 0);
        Ok(entry.value)
    }

    fn set(&mut self, key: &str, value: &[u8]) -> Result<(), EngineError> {
        let current = self.get(key);
        if let Some(w) = self.engine.set(key, value, &current) {
            self.file.extend_from_slice(w.record());
            self.engine.apply(&w);
        }
        Ok(())
    }

    fn delete(&mut self, key: &str) -> Result<(), EngineError> {
        let w = self.engine.delete(key)?;
        self.engine.apply(&w);
        self.file.extend_from_slice(w.record());
        Ok(())
    }

    fn get_all_keys(&self) -> Vec<String> {
        self.engine.get_all_keys()
    }

    fn reset_store(&mut self) {
        self.file.clear();
        self.engine.reset_store();
    }
}

#[test]
fn get_nonexistent_key_returns_no_such_key() {
    let store = MemStore::new();
    assert!(matches!(store.get("missing"), Err(EngineError::NoSuchKey)));
}

#[test]
fn set_then_get_returns_the_stored_value() {
    let mut store = MemStore::new();
    store.set("key", b"value").unwrap();
    assert_eq!(store.get("key").unwrap(), b"value");
}

#[test]
fn setting_same_value_again_does_not_grow_the_file() {
    let mut store = MemStore::new();
    store.set("key", b"value").unwrap();
    let size_after_first = store.file.len();
    store.set("key", b"value").unwrap();
    let size_after_second = store.file.len();
    assert_eq!(size_after_first, size_after_second);
}

#[test]
fn setting_different_value_for_same_key_returns_new_value() {
    let mut store = MemStore::new();
    store.set("key", b"old").unwrap();
    store.set("key", b"new").unwrap();
    assert_eq!(store.get("key").unwrap(), b"new");
}

#[test]
fn delete_removes_key_so_get_returns_no_such_key() {
    let mut store = MemStore::new();
    store.set("key", b"value").unwrap();
    store.delete("key").unwrap();
    assert!(matches!(store.get("key"), Err(EngineError::NoSuchKey)));
}

#[test]
fn delete_nonexistent_key_returns_no_such_key() {
    let mut store = MemStore::new();
    assert!(matches!(store.delete("missing"), Err(EngineError::NoSuchKey)));
}

#[test]
fn deleted_key_does_not_appear_in_get_all_keys() {
    let mut store = MemStore::new();
    store.set("keep", b"1").unwrap();
    store.set("drop", b"2").unwrap();
    store.delete("drop").unwrap();
    let keys = store.get_all_keys();
    assert_eq!(keys, vec!["keep"]);
}

#[test]
fn get_all_keys_on_empty_store_returns_empty_vec() {
    let store = MemStore::new();
    assert!(store.get_all_keys().is_empty());
}

#[test]
fn get_all_keys_returns_every_set_key() {
    let mut store = MemStore::new();
    store.set("a", b"1").unwrap();
    store.set("b", b"2").unwrap();
    store.set("c", b"3").unwrap();
    let mut keys = store.get_all_keys();
    keys.sort();
    assert_eq!(keys, vec!["a", "b", "c"]);
}

#[test]
fn reset_store_clears_all_entries_from_memory_and_disk() {
    let mut store = MemStore::new();
    store.set("a", b"1").unwrap();
    store.set("b", b"2").unwrap();
    store.reset_store();
    assert!(store.get_all_keys().is_empty());
    assert!(matches!(store.get("a"), Err(EngineError::NoSuchKey)));
    assert_eq!(store.file.len(), 0);
}

#[test]
fn set_and_get_full_byte_range_value() {
    let mut store = MemStore::new();
    let value: Vec<u8> = (0u8..=255).collect();
    store.set("bin", &value).unwrap();
    assert_eq!(store.get("bin").unwrap(), value);
}

#[test]
fn key_can_contain_unicode_characters() {
    let mut store = MemStore::new();
    store.set("héllo wörld", b"value").unwrap();
    assert_eq!(store.get("héllo wörld").unwrap(), b"value");
}

#[test]
fn key_can_be_set_again_after_deletion() {
    let mut store = MemStore::new();
    store.set("key", b"first").unwrap();
    store.delete("key").unwrap();
    store.set("key", b"second").unwrap();
    assert_eq!(store.get("key").unwrap(), b"second");
}

#[test]
fn written_values_are_readable_after_reopen() {
    let mut store = MemStore::new();
    store.set("hello", b"world").unwrap();
    let store = store.reopen();
    assert_eq!(store.get("hello").unwrap(), b"world");
}

#[test]
fn deleted_key_stays_gone_after_reopen() {
    let mut store = MemStore::new();
    store.set("gone", b"bye").unwrap();
    store.delete("gone").unwrap();
    let store = store.reopen();
    assert!(matches!(store.get("gone"), Err(EngineError::NoSuchKey)));
}

#[test]
fn only_the_latest_value_survives_reopen_after_multiple_updates() {
    let mut store = MemStore::new();
    store.set("k", b"v1").unwrap();
    store.set("k", b"v2").unwrap();
    store.set("k", b"v3").unwrap();
    let store = store.reopen();
    assert_eq!(store.get("k").unwrap(), b"v3");
}

#[test]
fn all_live_keys_are_restored_after_reopen() {
    let mut store = MemStore::new();
    store.set("a", b"1").unwrap();
    store.set("b", b"2").unwrap();
    store.set("c", b"3").unwrap();
    let store = store.reopen();
    let mut keys = store.get_all_keys();
    keys.sort();
    assert_eq!(keys, vec!["a", "b", "c"]);
}

#[test]
fn reset_store_and_reopen_gives_an_empty_store() {
    let mut store = MemStore::new();
    store.set("a", b"1").unwrap();
    store.set("b", b"2").unwrap();
    store.reset_store();
    let store = store.reopen();
    assert!(store.get_all_keys().is_empty());
}

#[test]
fn key_deleted_then_set_again_is_readable_after_reopen() {
    let mut store = MemStore::new();
    store.set("key", b"original").unwrap();
    store.delete("key").unwrap();
    store.set("key", b"renewed").unwrap();
    let store = store.reopen();
    assert_eq!(store.get("key").unwrap(), b"renewed");
}

#[test]
fn interleaved_sets_and_deletes_replay_to_correct_final_state() {
    let mut store = MemStore::new();
    store.set("a", b"1").unwrap();
    store.set("b", b"2").unwrap();
    store.delete("a").unwrap();
    store.set("c", b"3").unwrap();
    store.set("a", b"new").unwrap();
    store.delete("b").unwrap();
    let store = store.reopen();
    assert_eq!(store.get("a").unwrap(), b"new");
    assert!(matches!(store.get("b"), Err(EngineError::NoSuchKey)));
    assert_eq!(store.get("c").unwrap(), b"3");
}

#[test]
fn all_values_readable_after_many_keys_survive_reopen() {
    let n = 200usize;
    let mut store = MemStore::new();
    for i in 0..n {
        store.set(&format!("key_{}", i), format!("value_{}", i).as_bytes()).unwrap();
    }
    let store = store.reopen();
    for i in 0..n {
        let expected = format!("value_{}", i);
        assert_eq!(store.get(&format!("key_{}", i)).unwrap(), expected.as_bytes());
    }
    assert_eq!(store.get_all_keys().len(), n);
}

#[test]
fn store_opened_on_empty_file_contains_no_keys() {
    let store = MemStore::open(Vec::new());
    assert!(store.get_all_keys().is_empty());
}

#[test]
fn binary_values_round_trip_through_reopen() {
    let value: Vec<u8> = (0u8..=255).collect();
    let mut store = MemStore::new();
    store.set("bin", &value).unwrap();
    let store = store.reopen();
    assert_eq!(store.get("bin").unwrap(), value);
}

// ── The engine's own behaviour ───────────────────────────────────────────────

fn record(key: &str, value: &[u8], flags: u8) -> Vec<u8> {
    let mut e = OnDiskEntry::from_new_entry(NewEntry { key: key.to_string(), value: value.to_vec() });
    e.flags = flags;
    encode_entry(&e)
}

#[test]
fn locate_gives_the_offset_of_the_latest_entry() {
    let mut store = MemStore::new();
    store.set("a", b"1").unwrap();
    let second = store.file.len() as u64;
    store.set("a", b"2").unwrap();
    assert_eq!(store.engine.locate("a").unwrap(), second);
    assert_eq!(store.engine.log_len(), store.file.len() as u64);
}

#[test]
fn set_write_holds_the_encoded_entry() {
    let store = MemStore::new();
    let w = store.engine.set("k", b"v", &Err(EngineError::NoSuchKey)).unwrap();
    assert_eq!(w.record(), &[0, 0, 0, 1, 0, 0, 0, 0, 0, 0, 0, 1, 0, b'k', b'v'][..]);
}

#[test]
fn set_with_a_different_current_value_writes() {
    let store = MemStore::new();
    assert!(store.engine.set("k", b"v", &Ok(b"w".to_vec())).is_some());
    assert!(store.engine.set("k", b"v", &Ok(b"v".to_vec())).is_none());
}

#[test]
fn delete_write_is_a_tombstone() {
    let mut store = MemStore::new();
    store.set("k", b"value").unwrap();
    let w = store.engine.delete("k").unwrap();
    assert_eq!(w.record(), &[0, 0, 0, 1, 0, 0, 0, 0, 0, 0, 0, 0, 1, b'k'][..]);
}

#[test]
fn open_replays_a_hand_written_log() {
    let mut log = record("a", b"1", 0);
    log.extend(record("b", b"22", 0));
    log.extend(record("a", b"", 1));
    let engine = Engine::open(&log).unwrap();
    assert!(matches!(engine.locate("a"), Err(EngineError::NoSuchKey)));
    assert_eq!(engine.locate("b").unwrap(), 15);
    assert_eq!(engine.get_all_keys(), vec!["b"]);
}

#[test]
fn tombstone_bit_is_the_lowest_flag_bit() {
    let mut log = record("a", b"1", 0);
    log.extend(record("a", b"", 3));
    log.extend(record("b", b"2", 2));
    let engine = Engine::open(&log).unwrap();
    assert!(engine.locate("a").is_err());
    assert_eq!(engine.locate("b").unwrap(), 29);
}

#[test]
fn open_rejects_a_log_shorter_than_a_header() {
    assert!(matches!(Engine::open(&[0, 0, 0]), Err(EngineError::TruncatedStore)));
}

#[test]
fn open_rejects_a_trailing_partial_header() {
    let mut log = record("a", b"1", 0);
    log.extend_from_slice(&[0, 0, 0, 1, 0]);
    assert!(matches!(Engine::open(&log), Err(EngineError::TruncatedStore)));
}

#[test]
fn open_rejects_an_entry_cut_short() {
    let mut log = record("key", b"value", 0);
    log.pop();
    assert!(matches!(Engine::open(&log), Err(EngineError::TruncatedStore)));
}

#[test]
fn open_rejects_an_entry_size_that_overflows() {
    let mut log = vec![0xff, 0xff, 0xff, 0xff];
    log.extend_from_slice(&[0xff; 8]);
    log.push(0);
    match Engine::open(&log) {
        Err(EngineError::CorruptStore(msg)) => assert_eq!(msg, "integer overflow computing entry size"),
        _ => panic!("expected a corrupt store"),
    }
}

#[test]
fn open_rejects_a_key_that_is_not_utf8() {
    let log = vec![0, 0, 0, 1, 0, 0, 0, 0, 0, 0, 0, 0, 0, 0xff];
    match Engine::open(&log) {
        Err(EngineError::CorruptStore(msg)) => {
            assert_eq!(msg, std::str::from_utf8(&[0xff]).unwrap_err().to_string())
        }
        _ => panic!("expected a corrupt store"),
    }
}

#[test]
fn first_faulty_entry_decides_the_error() {
    let mut log = vec![0, 0, 0, 1, 0, 0, 0, 0, 0, 0, 0, 0, 0, 0xff];
    log.extend_from_slice(&[0, 0, 0]);
    assert!(matches!(Engine::open(&log), Err(EngineError::CorruptStore(_))));
}

#[test]
fn reset_then_write_starts_at_offset_zero() {
    let mut store = MemStore::new();
    store.set("a", b"1").unwrap();
    store.reset_store();
    store.set("b", b"2").unwrap();
    assert_eq!(store.engine.locate("b").unwrap(), 0);
    assert_eq!(store.engine.log_len(), 15);
}

#[test]
fn scan_log_lists_every_entry_with_its_offset() {
    let mut log = record("a", b"1", 0);
    log.extend(record("a", b"", 1));
    let entries = scan_log(&log).unwrap();
    assert_eq!(entries.len(), 2);
    assert_eq!(entries[0].0, 0);
    assert_eq!(entries[0].1.key, "a");
    assert_eq!(entries[0].1.value, b"1");
    assert_eq!(entries[0].1.flags, 0);
    assert_eq!(entries[1].0, 15);
    assert_eq!(entries[1].1.flags, 1);
    assert_eq!(entries[1].1.value_size, 0);
}

#[test]
fn scan_log_fails_like_open() {
    let mut log = record("a", b"1", 0);
    log.push(7);
    assert!(matches!(scan_log(&log), Err(EngineError::TruncatedStore)));
    assert!(scan_log(&[]).unwrap().is_empty());
}

#[test]
fn every_indexed_key_points_to_its_live_entry() {
    let mut store = MemStore::new();
    store.set("a", b"1").unwrap();
    store.set("b", b"2").unwrap();
    store.set("a", b"3").unwrap();
    store.delete("b").unwrap();
    store.set("c", b"").unwrap();
    let entries = scan_log(&store.file).unwrap();
    for key in store.get_all_keys() {
        let offset = store.engine.locate(&key).unwrap();
        let (_, entry) = entries.iter().find(|(o, _)| *o == offset).unwrap();
        assert_eq!(entry.key, key);
        assert_eq!(entry.flags & 1, 0);
    }
    assert_eq!(store.get("a").unwrap(), b"3");
    assert_eq!(store.get("c").unwrap(), b"");
}

#[test]
fn replay_store_gives_the_index_entries() {
    let mut log = record("a", b"1", 0);
    log.extend(record("b", b"2", 0));
    let index = Engine::replay_store(&log).unwrap();
    assert_eq!(index.get(&"a".to_string()), Some(0));
    assert_eq!(index.get(&"b".to_string()), Some(15));
    assert_eq!(index.get(&"c".to_string()), None);
    let mut keys = index.keys();
    keys.sort();
    assert_eq!(keys, vec!["a", "b"]);
    assert!(matches!(Engine::replay_store(&[0, 0, 0, 1, 0, 0, 0, 0, 0, 0, 0, 0]), Err(EngineError::TruncatedStore)));
}

#[test]
fn engine_error_messages() {
    assert_eq!(EngineError::NoSuchKey.message(), "No entry found for the given key");
    assert_eq!(EngineError::TruncatedStore.message(), "Store file is truncated");
    assert_eq!(EngineError::CorruptStore("bad".to_string()).message(), "Store file is corrupted: bad");
    let io = EngineError::Io(std::io::Error::other("disk gone"));
    assert_eq!(io.message(), "IO error: disk gone");
}

#[test]
fn key_index_insert_remove_and_keys() {
    let mut index = KeyIndex::new();
    for i in 0..500u64 {
        index.insert(format!("k{}", i), i);
    }
    index.insert("k7".to_string(), 7000);
    assert_eq!(index.get(&"k7".to_string()), Some(7000));
    let removed = index.remove(&"k8".to_string()).unwrap();
    assert_eq!(removed.key, "k8");
    assert_eq!(removed.offset, 8);
    assert!(index.remove(&"k8".to_string()).is_none());
    assert_eq!(index.get(&"k8".to_string()), None);
    let mut keys = index.keys();
    assert_eq!(keys.len(), 499);
    keys.sort();
    keys.dedup();
    assert_eq!(keys.len(), 499);
    index.clear();
    assert!(index.keys().is_empty());
}
