//! The store's behaviour, driven over logs kept in memory: a small driver
//! below plays the part of the file-backed store, moving bytes as the index
//! asks.

use std::cell::RefCell;
use std::collections::BTreeMap;
use std::rc::Rc;

use kvs::kv::{KvIndex, Maintenance, PendingRecord, Recovery, COMPACTION_THRESHOLD, MAX_FILE_SIZE};
use kvs::log_files::log_ids_from_file_names;
use kvs::KvsError;

type Result<T> = std::result::Result<T, KvsError>;

/// A directory of files held in memory; clones share the files.
#[derive(Clone, Default)]
struct MemDir(Rc<RefCell<BTreeMap<String, Vec<u8>>>>);

impl MemDir {
    fn new() -> MemDir {
        MemDir::default()
    }

    fn write(&self, name: &str, bytes: &[u8]) {
        self.0.borrow_mut().insert(name.to_owned(), bytes.to_vec());
    }

    fn names(&self) -> Vec<String> {
        self.0.borrow().keys().cloned().collect()
    }

    fn size(&self) -> u64 {
        self.0.borrow().values().map(|f| f.len() as u64).sum()
    }

    fn log_file_count(&self) -> usize {
        log_ids_from_file_names(&self.names()).len()
    }
}

fn log_name(id: u64) -> String {
    format!("{id}.log")
}

/// The store over a [`MemDir`].
struct MemStore {
    dir: MemDir,
    index: KvIndex,
}

impl MemStore {
    fn open(dir: &MemDir) -> Result<MemStore> {
        let ids = log_ids_from_file_names(&dir.names());
        let mut recovery = Recovery::new();
        for id in ids {
            let bytes = dir.0.borrow().get(&log_name(id)).cloned().unwrap_or_default();
            recovery.replay_log(id, &bytes)?;
        }
        let index = recovery.finish();
        let store = MemStore { dir: dir.clone(), index };
        for &id in store.index.open_log_ids() {
            store.create(id);
        }
        Ok(store)
    }

    fn create(&self, id: u64) {
        self.dir.0.borrow_mut().entry(log_name(id)).or_default();
    }

    fn append(&mut self, bytes: &[u8]) {
        let name = log_name(self.index.current_log_id());
        self.dir.0.borrow_mut().entry(name).or_default().extend_from_slice(bytes);
    }

    fn rotate(&mut self) {
        let id = self.index.rotate();
        self.create(id);
    }

    fn compact(&mut self) {
        let plan = self.index.plan_compaction().expect("live records fit in one log");
        let mut compacted = Vec::new();
        {
            let files = self.dir.0.borrow();
            for r in &plan.relocations {
                let file = &files[&log_name(r.source_log)];
                let start = r.source_position as usize;
                compacted.extend_from_slice(&file[start..start + r.size as usize]);
            }
        }
        self.dir.write(&log_name(plan.compaction_log), &compacted);
        for id in &plan.obsolete_logs {
            self.dir.0.borrow_mut().remove(&log_name(*id));
        }
        self.create(plan.active_log);
    }

    fn set(&mut self, key: String, value: String) -> Result<()> {
        match self.index.maintenance() {
            Maintenance::Compact => self.compact(),
            Maintenance::Rotate => self.rotate(),
            Maintenance::Nothing => {}
        }
        let record = PendingRecord::put(key, value);
        self.append(record.bytes());
        self.index.commit(record);
        Ok(())
    }

    fn get(&mut self, key: String) -> Result<Option<String>> {
        let Some(entry) = self.index.locate(&key) else {
            return Ok(None);
        };
        let files = self.dir.0.borrow();
        let file = &files[&log_name(entry.log_id)];
        let start = entry.value_position as usize;
        let record = &file[start..start + entry.value_size as usize];
        KvIndex::value_from_record(record, entry).map(Some)
    }

    fn remove(&mut self, key: String) -> Result<()> {
        let record = self.index.prepare_remove(key)?;
        self.append(record.bytes());
        self.index.commit(record);
        Ok(())
    }
}

/// 4 * 1024 * 1024: the size the rotation tests write past.
const BULK_BYTES: usize = 4 * 1024 * 1024;

fn open_temp_store() -> (MemStore, MemDir) {
    let dir = MemDir::new();
    let store = MemStore::open(&dir).expect("failed to open store");
    (store, dir)
}

// Should get previously stored value.
#[test]
fn get_stored_value() -> Result<()> {
    let temp_dir = MemDir::new();
    let mut store = MemStore::open(&temp_dir)?;

    store.set("key1".to_owned(), "value1".to_owned())?;
    store.set("key2".to_owned(), "value2".to_owned())?;

    assert_eq!(store.get("key1".to_owned())?, Some("value1".to_owned()));
    assert_eq!(store.get("key2".to_owned())?, Some("value2".to_owned()));

    // Open from disk again and check persistent data.
    drop(store);
    let mut store = MemStore::open(&temp_dir)?;
    assert_eq!(store.get("key1".to_owned())?, Some("value1".to_owned()));
    assert_eq!(store.get("key2".to_owned())?, Some("value2".to_owned()));

    Ok(())
}

// Should overwrite existent value.
#[test]
fn overwrite_value() -> Result<()> {
    let temp_dir = MemDir::new();
    let mut store = MemStore::open(&temp_dir)?;

    store.set("key1".to_owned(), "value1".to_owned())?;
    assert_eq!(store.get("key1".to_owned())?, Some("value1".to_owned()));
    store.set("key1".to_owned(), "value2".to_owned())?;
    assert_eq!(store.get("key1".to_owned())?, Some("value2".to_owned()));

    // Open from disk again and check persistent data.
    drop(store);
    let mut store = MemStore::open(&temp_dir)?;
    assert_eq!(store.get("key1".to_owned())?, Some("value2".to_owned()));
    store.set("key1".to_owned(), "value3".to_owned())?;
    assert_eq!(store.get("key1".to_owned())?, Some("value3".to_owned()));

    Ok(())
}

// Should get `None` when getting a non-existent key.
#[test]
fn get_non_existent_value() -> Result<()> {
    let temp_dir = MemDir::new();
    let mut store = MemStore::open(&temp_dir)?;

    store.set("key1".to_owned(), "value1".to_owned())?;
    assert_eq!(store.get("key2".to_owned())?, None);

    // Open from disk again and check persistent data.
    drop(store);
    let mut store = MemStore::open(&temp_dir)?;
    assert_eq!(store.get("key2".to_owned())?, None);

    Ok(())
}

#[test]
fn remove_non_existent_key() -> Result<()> {
    let temp_dir = MemDir::new();
    let mut store = MemStore::open(&temp_dir)?;
    assert!(store.remove("key1".to_owned()).is_err());
    Ok(())
}

#[test]
fn remove_key() -> Result<()> {
    let temp_dir = MemDir::new();
    let mut store = MemStore::open(&temp_dir)?;
    store.set("key1".to_owned(), "value1".to_owned())?;
    store.remove("key1".to_owned()).unwrap();
    assert_eq!(store.get("key1".to_owned())?, None);
    Ok(())
}

// Insert data until total size of the directory decreases.
// Test data correctness after compaction.
#[test]
fn compaction() -> Result<()> {
    let temp_dir = MemDir::new();
    let mut store = MemStore::open(&temp_dir)?;

    let dir_size = || temp_dir.size();

    let mut current_size = dir_size();
    for iter in 0..1000 {
        for key_id in 0..1000 {
            let key = format!("key{key_id}");
            let value = format!("{iter}");
            store.set(key, value)?;
        }

        let new_size = dir_size();
        if new_size > current_size {
            current_size = new_size;
            continue;
        }
        // Compaction triggered.

        drop(store);
        // reopen and check content.
        let mut store = MemStore::open(&temp_dir)?;
        for key_id in 0..1000 {
            let key = format!("key{key_id}");
            assert_eq!(store.get(key)?, Some(format!("{iter}")));
        }
        return Ok(());
    }

    panic!("No compaction detected");
}

#[test]
fn set_and_get_single_key() -> Result<()> {
    let (mut store, _dir) = open_temp_store();
    store.set("key".into(), "value".into())?;
    assert_eq!(store.get("key".into())?, Some("value".into()));
    Ok(())
}

#[test]
fn set_and_get_multiple_keys() -> Result<()> {
    let (mut store, _dir) = open_temp_store();
    store.set("a".into(), "1".into())?;
    store.set("b".into(), "2".into())?;
    store.set("c".into(), "3".into())?;
    assert_eq!(store.get("a".into())?, Some("1".into()));
    assert_eq!(store.get("b".into())?, Some("2".into()));
    assert_eq!(store.get("c".into())?, Some("3".into()));
    Ok(())
}

#[test]
fn overwrite_returns_latest_value() -> Result<()> {
    let (mut store, _dir) = open_temp_store();
    store.set("k".into(), "v1".into())?;
    assert_eq!(store.get("k".into())?, Some("v1".into()));
    store.set("k".into(), "v2".into())?;
    assert_eq!(store.get("k".into())?, Some("v2".into()));
    store.set("k".into(), "v3".into())?;
    assert_eq!(store.get("k".into())?, Some("v3".into()));
    Ok(())
}

#[test]
fn remove_then_get_returns_none() -> Result<()> {
    let (mut store, _dir) = open_temp_store();
    store.set("k".into(), "v".into())?;
    assert_eq!(store.get("k".into())?, Some("v".into()));
    store.remove("k".into())?;
    assert_eq!(store.get("k".into())?, None);
    Ok(())
}

#[test]
fn set_after_remove_same_key() -> Result<()> {
    let (mut store, _dir) = open_temp_store();
    store.set("k".into(), "v1".into())?;
    store.remove("k".into())?;
    assert_eq!(store.get("k".into())?, None);
    store.set("k".into(), "v2".into())?;
    assert_eq!(store.get("k".into())?, Some("v2".into()));
    Ok(())
}

#[test]
fn interleaved_set_get_remove() -> Result<()> {
    let (mut store, _dir) = open_temp_store();
    store.set("a".into(), "1".into())?;
    store.set("b".into(), "2".into())?;
    assert_eq!(store.get("a".into())?, Some("1".into()));

    store.remove("a".into())?;
    assert_eq!(store.get("a".into())?, None);
    assert_eq!(store.get("b".into())?, Some("2".into()));

    store.set("a".into(), "3".into())?;
    store.set("c".into(), "4".into())?;
    store.remove("b".into())?;

    assert_eq!(store.get("a".into())?, Some("3".into()));
    assert_eq!(store.get("b".into())?, None);
    assert_eq!(store.get("c".into())?, Some("4".into()));
    Ok(())
}

#[test]
fn persistence_basic_set_get() -> Result<()> {
    let dir = MemDir::new();
    {
        let mut store = MemStore::open(&dir)?;
        store.set("k1".into(), "v1".into())?;
        store.set("k2".into(), "v2".into())?;
    }
    let mut store = MemStore::open(&dir)?;
    assert_eq!(store.get("k1".into())?, Some("v1".into()));
    assert_eq!(store.get("k2".into())?, Some("v2".into()));
    Ok(())
}

#[test]
fn persistence_overwrite() -> Result<()> {
    let dir = MemDir::new();
    {
        let mut store = MemStore::open(&dir)?;
        store.set("k".into(), "v1".into())?;
        store.set("k".into(), "v2".into())?;
    }
    let mut store = MemStore::open(&dir)?;
    assert_eq!(store.get("k".into())?, Some("v2".into()));
    Ok(())
}

#[test]
fn persistence_remove() -> Result<()> {
    let dir = MemDir::new();
    {
        let mut store = MemStore::open(&dir)?;
        store.set("k".into(), "v".into())?;
        store.remove("k".into())?;
    }
    let mut store = MemStore::open(&dir)?;
    assert_eq!(store.get("k".into())?, None);
    Ok(())
}

#[test]
fn persistence_multiple_reopen_cycles() -> Result<()> {
    let dir = MemDir::new();
    {
        let mut store = MemStore::open(&dir)?;
        store.set("k".into(), "v1".into())?;
    }
    {
        let mut store = MemStore::open(&dir)?;
        assert_eq!(store.get("k".into())?, Some("v1".into()));
        store.set("k".into(), "v2".into())?;
    }
    {
        let mut store = MemStore::open(&dir)?;
        assert_eq!(store.get("k".into())?, Some("v2".into()));
        store.remove("k".into())?;
    }
    {
        let mut store = MemStore::open(&dir)?;
        assert_eq!(store.get("k".into())?, None);
    }
    Ok(())
}

#[test]
fn persistence_set_remove_set_across_sessions() -> Result<()> {
    let dir = MemDir::new();
    {
        let mut store = MemStore::open(&dir)?;
        store.set("k".into(), "v1".into())?;
    }
    {
        let mut store = MemStore::open(&dir)?;
        store.remove("k".into())?;
    }
    {
        let mut store = MemStore::open(&dir)?;
        assert_eq!(store.get("k".into())?, None);
        store.set("k".into(), "v2".into())?;
    }
    {
        let mut store = MemStore::open(&dir)?;
        assert_eq!(store.get("k".into())?, Some("v2".into()));
    }
    Ok(())
}

#[test]
fn persistence_many_keys() -> Result<()> {
    let dir = MemDir::new();
    let n = 500;
    {
        let mut store = MemStore::open(&dir)?;
        for i in 0..n {
            store.set(format!("key{i:05}"), format!("value{i:05}"))?;
        }
    }
    let mut store = MemStore::open(&dir)?;
    for i in 0..n {
        assert_eq!(store.get(format!("key{i:05}"))?, Some(format!("value{i:05}")));
    }
    Ok(())
}

#[test]
fn persistence_empty_store_reopen() -> Result<()> {
    let dir = MemDir::new();
    {
        let _store = MemStore::open(&dir)?;
    }
    {
        let mut store = MemStore::open(&dir)?;
        assert_eq!(store.get("anything".into())?, None);
        store.set("k".into(), "v".into())?;
    }
    {
        let mut store = MemStore::open(&dir)?;
        assert_eq!(store.get("k".into())?, Some("v".into()));
    }
    Ok(())
}

#[test]
fn empty_string_key() -> Result<()> {
    let (mut store, _dir) = open_temp_store();
    store.set(String::new(), "value".into())?;
    assert_eq!(store.get(String::new())?, Some("value".into()));
    Ok(())
}

#[test]
fn empty_string_value() -> Result<()> {
    let (mut store, _dir) = open_temp_store();
    store.set("key".into(), String::new())?;
    assert_eq!(store.get("key".into())?, Some(String::new()));
    Ok(())
}

#[test]
fn empty_key_and_empty_value() -> Result<()> {
    let (mut store, _dir) = open_temp_store();
    store.set(String::new(), String::new())?;
    assert_eq!(store.get(String::new())?, Some(String::new()));
    Ok(())
}

#[test]
fn key_with_special_characters() -> Result<()> {
    let (mut store, _dir) = open_temp_store();
    let keys = [
        "key with spaces",
        "key\twith\ttabs",
        "key\nwith\nnewlines",
        "key/with/slashes",
        "emoji\u{1F511}key",
        "\u{65E5}\u{672C}\u{8A9E}",
        "key=with=equals&and&ampersands",
    ];
    for (i, key) in keys.iter().enumerate() {
        store.set((*key).into(), format!("v{i}"))?;
    }
    for (i, key) in keys.iter().enumerate() {
        assert_eq!(store.get((*key).into())?, Some(format!("v{i}")));
    }
    Ok(())
}

#[test]
fn value_with_special_characters() -> Result<()> {
    let (mut store, _dir) = open_temp_store();
    let value = "line1\nline2\ttab\r\nwindows\0null";
    store.set("k".into(), value.into())?;
    assert_eq!(store.get("k".into())?, Some(value.into()));
    Ok(())
}

#[test]
fn special_characters_persist_across_reopen() -> Result<()> {
    let dir = MemDir::new();
    let key = "key\nwith\nnewlines";
    let value = "value\0with\0nulls";
    {
        let mut store = MemStore::open(&dir)?;
        store.set(key.into(), value.into())?;
    }
    let mut store = MemStore::open(&dir)?;
    assert_eq!(store.get(key.into())?, Some(value.into()));
    Ok(())
}

#[test]
fn large_value_within_buffer_limit() -> Result<()> {
    let (mut store, _dir) = open_temp_store();
    // ~500 bytes — well within the 1024-byte deserialize buffer
    let value = "x".repeat(500);
    store.set("k".into(), value.clone())?;
    assert_eq!(store.get("k".into())?, Some(value));
    Ok(())
}

#[test]
fn large_value_near_buffer_limit() -> Result<()> {
    let (mut store, _dir) = open_temp_store();
    // ~990 bytes + key + overhead approaches 1024
    let value = "x".repeat(990);
    store.set("k".into(), value.clone())?;
    assert_eq!(store.get("k".into())?, Some(value));
    Ok(())
}

#[test]
fn get_nonexistent_key_empty_store() -> Result<()> {
    let (mut store, _dir) = open_temp_store();
    assert_eq!(store.get("nonexistent".into())?, None);
    Ok(())
}

#[test]
fn get_nonexistent_key_nonempty_store() -> Result<()> {
    let (mut store, _dir) = open_temp_store();
    store.set("existing".into(), "value".into())?;
    assert_eq!(store.get("nonexistent".into())?, None);
    Ok(())
}

#[test]
fn remove_nonexistent_key_empty_store() {
    let (mut store, _dir) = open_temp_store();
    let err = store.remove("nonexistent".into()).unwrap_err();
    assert!(matches!(err, KvsError::KeyNotFound));
}

#[test]
fn remove_nonexistent_key_nonempty_store() -> Result<()> {
    let (mut store, _dir) = open_temp_store();
    store.set("a".into(), "1".into())?;
    let err = store.remove("b".into()).unwrap_err();
    assert!(matches!(err, KvsError::KeyNotFound));
    // Existing key unaffected
    assert_eq!(store.get("a".into())?, Some("1".into()));
    Ok(())
}

#[test]
fn double_remove_returns_key_not_found() -> Result<()> {
    let (mut store, _dir) = open_temp_store();
    store.set("k".into(), "v".into())?;
    store.remove("k".into())?;
    let err = store.remove("k".into()).unwrap_err();
    assert!(matches!(err, KvsError::KeyNotFound));
    Ok(())
}

#[test]
fn many_overwrites_same_key() -> Result<()> {
    let (mut store, _dir) = open_temp_store();
    for i in 0..100 {
        store.set("k".into(), format!("v{i}"))?;
    }
    assert_eq!(store.get("k".into())?, Some("v99".into()));
    Ok(())
}

#[test]
fn many_overwrites_persist() -> Result<()> {
    let dir = MemDir::new();
    {
        let mut store = MemStore::open(&dir)?;
        for i in 0..100 {
            store.set("k".into(), format!("v{i}"))?;
        }
    }
    let mut store = MemStore::open(&dir)?;
    assert_eq!(store.get("k".into())?, Some("v99".into()));
    Ok(())
}

#[test]
fn reopen_after_removing_all_keys() -> Result<()> {
    let dir = MemDir::new();
    {
        let mut store = MemStore::open(&dir)?;
        store.set("a".into(), "1".into())?;
        store.set("b".into(), "2".into())?;
        store.remove("a".into())?;
        store.remove("b".into())?;
    }
    let mut store = MemStore::open(&dir)?;
    assert_eq!(store.get("a".into())?, None);
    assert_eq!(store.get("b".into())?, None);
    Ok(())
}

/// Non-.log files and .log files with non-numeric names should be ignored.
#[test]
fn non_log_files_in_directory_are_ignored() -> Result<()> {
    let dir = MemDir::new();
    dir.write("readme.txt", b"hello");
    dir.write("data.json", b"{}");
    dir.write("notanumber.log", b"garbage");

    let mut store = MemStore::open(&dir)?;
    store.set("k".into(), "v".into())?;
    assert_eq!(store.get("k".into())?, Some("v".into()));
    Ok(())
}

#[test]
fn log_files_have_numeric_names() -> Result<()> {
    let dir = MemDir::new();
    {
        let mut store = MemStore::open(&dir)?;
        store.set("k".into(), "v".into())?;
    }
    let count = dir.log_file_count();
    assert!(count >= 1, "Expected at least one log file, got {count}");
    Ok(())
}

/// Writing > `MAX_FILE_SIZE` within a single session should trigger log
/// rotation.
#[test]
fn rotation_within_single_session() -> Result<()> {
    let dir = MemDir::new();
    let mut store = MemStore::open(&dir)?;

    // Write ~4.5MB in a single session
    let value = "x".repeat(900);
    let entries = (BULK_BYTES / 900) + 500;
    for i in 0..entries {
        store.set(format!("key{i:05}"), value.clone())?;
    }

    let count = dir.log_file_count();
    assert!(
        count > 1,
        "Expected multiple log files after exceeding MAX_FILE_SIZE in one session, got {count}"
    );
    Ok(())
}

/// Rotation can trigger on the first `set()` of a new session if the log is
/// already > `MAX_FILE_SIZE`.
#[test]
fn rotation_on_first_write_after_reopen() -> Result<()> {
    let dir = MemDir::new();

    // Session 1: fill the log past MAX_FILE_SIZE
    {
        let mut store = MemStore::open(&dir)?;
        let value = "x".repeat(900);
        let entries = (BULK_BYTES / 900) + 500;
        for i in 0..entries {
            store.set(format!("key{i:05}"), value.clone())?;
        }
    }

    // Session 2: first write should trigger rotation (uncompacted_bytes reset to 0)
    {
        let mut store = MemStore::open(&dir)?;
        store.set("trigger".into(), "rotation".into())?;
        drop(store);
    }

    let count = dir.log_file_count();
    assert!(count > 1, "Expected rotation on reopen, got {count} log file(s)");
    Ok(())
}

#[test]
fn values_readable_after_rotation_and_reopen() -> Result<()> {
    let dir = MemDir::new();

    // Session 1: fill the log past MAX_FILE_SIZE
    {
        let mut store = MemStore::open(&dir)?;
        let value = "x".repeat(900);
        let entries = (BULK_BYTES / 900) + 500;
        for i in 0..entries {
            store.set(format!("key{i:05}"), value.clone())?;
        }
    }

    // Session 2: trigger rotation, then write to new log
    {
        let mut store = MemStore::open(&dir)?;
        store.set("new_key".into(), "new_value".into())?;

        // Within this session, old keys should still be accessible
        assert_eq!(store.get("key00000".into())?, Some("x".repeat(900)));
    }

    // Session 3: reopen with multiple log files
    {
        let mut store = MemStore::open(&dir)?;
        // Key from old log file (log 0)
        assert_eq!(
            store.get("key00000".into())?,
            Some("x".repeat(900)),
            "key from old log file not readable after reopen"
        );
        // Key from new log file
        assert_eq!(store.get("new_key".into())?, Some("new_value".into()));
    }
    Ok(())
}

/// After rotation, overwritten keys should still reflect their latest value.
#[test]
fn overwrite_across_log_files() -> Result<()> {
    let dir = MemDir::new();

    // Session 1: write a key, then fill past MAX_FILE_SIZE
    {
        let mut store = MemStore::open(&dir)?;
        store.set("shared".into(), "old_value".into())?;
        let value = "x".repeat(900);
        let entries = (BULK_BYTES / 900) + 500;
        for i in 0..entries {
            store.set(format!("pad{i:05}"), value.clone())?;
        }
    }

    // Session 2: trigger rotation, overwrite the key in the new log
    {
        let mut store = MemStore::open(&dir)?;
        store.set("shared".into(), "new_value".into())?;
    }

    // Session 3: should see the latest value
    {
        let mut store = MemStore::open(&dir)?;
        assert_eq!(store.get("shared".into())?, Some("new_value".into()));
    }
    Ok(())
}

#[test]
fn compaction_reduces_size_and_preserves_data() -> Result<()> {
    let dir = MemDir::new();
    let mut store = MemStore::open(&dir)?;

    let mut current_size = dir.size();
    for iter in 0..1000 {
        for key_id in 0..1000 {
            store.set(format!("key{key_id}"), format!("{iter}"))?;
        }

        let new_size = dir.size();
        if new_size < current_size {
            // Compaction triggered — verify all data
            drop(store);
            let mut store = MemStore::open(&dir)?;
            for key_id in 0..1000 {
                assert_eq!(
                    store.get(format!("key{key_id}"))?,
                    Some(format!("{iter}")),
                    "key{key_id} wrong after compaction at iter {iter}"
                );
            }
            return Ok(());
        }
        current_size = new_size;
    }
    panic!("No compaction detected after 1M writes");
}

#[test]
fn bulk_set_then_bulk_get() -> Result<()> {
    let (mut store, _dir) = open_temp_store();
    let n = 1000;
    for i in 0..n {
        store.set(format!("key{i:05}"), format!("value{i:05}"))?;
    }
    for i in 0..n {
        assert_eq!(store.get(format!("key{i:05}"))?, Some(format!("value{i:05}")));
    }
    Ok(())
}

#[test]
fn bulk_set_remove_even_keys_persist() -> Result<()> {
    let dir = MemDir::new();
    let n = 500;
    {
        let mut store = MemStore::open(&dir)?;
        for i in 0..n {
            store.set(format!("key{i:05}"), format!("value{i:05}"))?;
        }
        for i in (0..n).step_by(2) {
            store.remove(format!("key{i:05}"))?;
        }
    }
    let mut store = MemStore::open(&dir)?;
    for i in 0..n {
        if i % 2 == 0 {
            assert_eq!(store.get(format!("key{i:05}"))?, None, "even key{i:05} should be removed");
        } else {
            assert_eq!(
                store.get(format!("key{i:05}"))?,
                Some(format!("value{i:05}")),
                "odd key{i:05} should exist"
            );
        }
    }
    Ok(())
}

#[test]
fn sequential_reopen_with_writes_each_cycle() -> Result<()> {
    let dir = MemDir::new();
    for cycle in 0..10 {
        let mut store = MemStore::open(&dir)?;
        for i in 0..10 {
            store.set(format!("c{cycle}_k{i}"), format!("c{cycle}_v{i}"))?;
        }
        // Verify all keys from all cycles so far
        for c in 0..=cycle {
            for i in 0..10 {
                assert_eq!(
                    store.get(format!("c{c}_k{i}"))?,
                    Some(format!("c{c}_v{i}")),
                    "cycle {c} key {i} missing at cycle {cycle}"
                );
            }
        }
    }
    Ok(())
}

/// Overwrite all keys in bulk, verify only latest values survive.
#[test]
fn bulk_overwrite_all_keys() -> Result<()> {
    let dir = MemDir::new();
    let n = 200;
    {
        let mut store = MemStore::open(&dir)?;
        for round in 0..5 {
            for i in 0..n {
                store.set(format!("key{i:03}"), format!("round{round}_val{i}"))?;
            }
        }
    }
    let mut store = MemStore::open(&dir)?;
    for i in 0..n {
        assert_eq!(
            store.get(format!("key{i:03}"))?,
            Some(format!("round4_val{i}")),
            "key{i:03} should have round 4 value"
        );
    }
    Ok(())
}

// The store's own rules.

#[test]
fn compaction_leaves_two_logs_and_no_dead_bytes() -> Result<()> {
    let dir = MemDir::new();
    let mut store = MemStore::open(&dir)?;
    let mut compacted = false;
    for round in 0..1_000_000u64 {
        let before = store.index.current_log_id();
        store.set(format!("k{}", round % 10), format!("{round}"))?;
        if store.index.current_log_id() == before + 2 {
            compacted = true;
            assert_eq!(store.index.open_log_ids(), &vec![before + 1, before + 2]);
            break;
        }
    }
    assert!(compacted);
    // The compaction log holds exactly the ten live records, and the write
    // that followed sits in the new active log.
    assert_eq!(store.index.len(), 10);
    assert_eq!(dir.log_file_count(), 2);
    assert!(store.index.uncompacted_bytes() < COMPACTION_THRESHOLD);
    for k in 0..10 {
        assert!(store.get(format!("k{k}"))?.is_some());
    }
    Ok(())
}

#[test]
fn reopen_restores_index_exactly() -> Result<()> {
    let dir = MemDir::new();
    let mut store = MemStore::open(&dir)?;
    for i in 0..50 {
        store.set(format!("k{}", i % 7), format!("v{i}"))?;
    }
    store.remove("k3".into())?;
    let entries: Vec<_> = (0..7).map(|k| store.index.locate(&format!("k{k}"))).collect();
    let uncompacted = store.index.uncompacted_bytes();
    let active = (store.index.current_log_id(), store.index.active_len());
    drop(store);
    let store = MemStore::open(&dir)?;
    let reopened: Vec<_> = (0..7).map(|k| store.index.locate(&format!("k{k}"))).collect();
    assert_eq!(entries, reopened);
    assert_eq!(store.index.uncompacted_bytes(), uncompacted);
    assert_eq!((store.index.current_log_id(), store.index.active_len()), active);
    Ok(())
}

#[test]
fn rotation_starts_at_max_file_size() -> Result<()> {
    let dir = MemDir::new();
    let mut store = MemStore::open(&dir)?;
    let value = "y".repeat(1000);
    let mut i = 0u64;
    while store.index.active_len() <= MAX_FILE_SIZE {
        store.set(format!("r{i}"), value.clone())?;
        i += 1;
    }
    assert_eq!(store.index.maintenance(), Maintenance::Rotate);
    assert_eq!(store.index.current_log_id(), 0);
    store.set("next".into(), "one".into())?;
    assert_eq!(store.index.current_log_id(), 1);
    assert_eq!(store.index.open_log_ids(), &vec![0, 1]);
    Ok(())
}

#[test]
fn long_string_is_lost_on_reopen_with_what_follows() -> Result<()> {
    // A value longer than the replay scratch buffer is read back in the
    // session that wrote it, but ends its log early on the next open.
    let dir = MemDir::new();
    {
        let mut store = MemStore::open(&dir)?;
        store.set("short".into(), "before".into())?;
        store.set("long".into(), "z".repeat(2000))?;
        store.set("after".into(), "lost".into())?;
        assert_eq!(store.get("long".into())?, Some("z".repeat(2000)));
    }
    let mut store = MemStore::open(&dir)?;
    assert_eq!(store.get("short".into())?, Some("before".into()));
    assert_eq!(store.get("long".into())?, None);
    assert_eq!(store.get("after".into())?, None);
    Ok(())
}

#[test]
fn refused_record_fails_open() {
    let dir = MemDir::new();
    // Variant index 2 is neither a put nor a removal.
    dir.write("0.log", &[2, 1, b'k']);
    assert!(matches!(MemStore::open(&dir), Err(KvsError::Serde(_))));
}

#[test]
fn truncated_record_ends_log() -> Result<()> {
    let dir = MemDir::new();
    let good = PendingRecord::put("a".into(), "1".into());
    let mut bytes = good.bytes().to_vec();
    bytes.extend_from_slice(&[0, 5, b'x']);
    dir.write("0.log", &bytes);
    let mut store = MemStore::open(&dir)?;
    assert_eq!(store.get("a".into())?, Some("1".into()));
    assert_eq!(store.index.len(), 1);
    assert_eq!(store.index.active_len(), bytes.len() as u64);
    Ok(())
}

#[test]
fn unreferenced_logs_stay_closed() -> Result<()> {
    let dir = MemDir::new();
    let put = |k: &str, v: &str| PendingRecord::put(k.into(), v.into()).bytes().to_vec();
    dir.write("1.log", &put("a", "1"));
    dir.write("3.log", &put("a", "2"));
    dir.write("5.log", &put("b", "3"));
    dir.write("7.log", &[]);
    let store = MemStore::open(&dir)?;
    assert_eq!(store.index.current_log_id(), 7);
    assert_eq!(store.index.open_log_ids(), &vec![3, 5, 7]);
    Ok(())
}

#[test]
fn dead_bytes_are_log_bytes_less_live_records() -> Result<()> {
    let dir = MemDir::new();
    let mut store = MemStore::open(&dir)?;
    store.set("a".to_owned(), "1".to_owned())?;
    store.set("b".to_owned(), "22".to_owned())?;
    store.set("a".to_owned(), "333".to_owned())?;
    store.set("c".to_owned(), "4444".to_owned())?;
    store.remove("b".to_owned())?;
    let live = |store: &MemStore| -> u64 {
        ["a", "b", "c"]
            .iter()
            .filter_map(|k| store.index.locate(k))
            .map(|e| e.value_size)
            .sum()
    };
    assert!(store.index.uncompacted_bytes() > 0);
    assert_eq!(dir.size(), store.index.uncompacted_bytes() + live(&store));
    drop(store);
    let store = MemStore::open(&dir)?;
    assert_eq!(dir.size(), store.index.uncompacted_bytes() + live(&store));
    Ok(())
}

#[test]
fn compaction_deletes_logs_left_closed_on_open() -> Result<()> {
    let dir = MemDir::new();
    let mut store = MemStore::open(&dir)?;
    store.set("a".to_owned(), "1".to_owned())?;
    store.rotate();
    store.remove("a".to_owned())?;
    store.set("b".to_owned(), "2".to_owned())?;
    drop(store);
    // Log 0 holds no live record, so it is left closed on open.
    let mut store = MemStore::open(&dir)?;
    assert_eq!(store.index.open_log_ids(), &vec![1]);
    store.compact();
    // Compaction deletes every log it found, open or not: the removed key
    // does not come back on the next open.
    assert!(!dir.names().contains(&"0.log".to_owned()));
    assert_eq!(dir.log_file_count(), 2);
    drop(store);
    let mut store = MemStore::open(&dir)?;
    assert_eq!(store.get("b".to_owned())?, Some("2".to_owned()));
    assert_eq!(store.get("a".to_owned())?, None);
    Ok(())
}

#[test]
fn truncated_earlier_log_keeps_later_writes_across_reopen() -> Result<()> {
    let dir = MemDir::new();
    let put = |k: &str, v: &str| PendingRecord::put(k.into(), v.into()).bytes().to_vec();
    let mut first = put("a", "1");
    let torn = put("b", "2");
    first.extend_from_slice(&torn[..torn.len() - 1]);
    dir.write("1.log", &first);
    dir.write("2.log", &put("c", "3"));
    let mut store = MemStore::open(&dir)?;
    assert_eq!(store.get("b".to_owned())?, None);
    store.set("d".to_owned(), "4".to_owned())?;
    store.remove("a".to_owned())?;
    drop(store);
    let mut store = MemStore::open(&dir)?;
    assert_eq!(store.get("a".to_owned())?, None);
    assert_eq!(store.get("c".to_owned())?, Some("3".to_owned()));
    assert_eq!(store.get("d".to_owned())?, Some("4".to_owned()));
    Ok(())
}

#[test]
fn forget_drops_key_without_writing() -> Result<()> {
    let dir = MemDir::new();
    let mut store = MemStore::open(&dir)?;
    store.set("a".to_owned(), "1".to_owned())?;
    let size = dir.size();
    store.index.forget("a");
    assert_eq!(store.get("a".to_owned())?, None);
    assert_eq!(dir.size(), size);
    Ok(())
}

#[test]
fn smallest_record_takes_two_bytes() {
    assert_eq!(PendingRecord::remove(String::new()).len(), 2);
    assert_eq!(PendingRecord::put(String::new(), String::new()).len(), 3);
}

#[test]
fn overwrites_keep_logs_bounded() -> Result<()> {
    let dir = MemDir::new();
    let mut store = MemStore::open(&dir)?;
    let value = "v".repeat(1000);
    let mut largest = 0u64;
    for i in 0..6000 {
        let key = format!("k{}", i % 3);
        largest = largest.max(PendingRecord::put(key.clone(), value.clone()).len() as u64);
        store.set(key, value.clone())?;
        let live: u64 =
            ["k0", "k1", "k2"].iter().filter_map(|k| store.index.locate(k)).map(|e| e.value_size).sum();
        assert!(dir.size() <= live + COMPACTION_THRESHOLD + largest);
    }
    Ok(())
}

#[test]
fn two_names_for_one_log_number_are_one_log() -> Result<()> {
    let dir = MemDir::new();
    let put = |k: &str, v: &str| PendingRecord::put(k.into(), v.into()).bytes().to_vec();
    dir.write("5.log", &put("a", "1"));
    dir.write("05.log", &put("b", "2"));
    let mut store = MemStore::open(&dir)?;
    assert_eq!(store.index.open_log_ids(), &vec![5]);
    assert_eq!(store.get("a".to_owned())?, Some("1".to_owned()));
    assert_eq!(store.get("b".to_owned())?, None);
    store.set("c".to_owned(), "3".to_owned())?;
    drop(store);
    let mut store = MemStore::open(&dir)?;
    assert_eq!(store.get("a".to_owned())?, Some("1".to_owned()));
    assert_eq!(store.get("c".to_owned())?, Some("3".to_owned()));
    assert_eq!(store.index.uncompacted_bytes(), 0);
    Ok(())
}

#[test]
fn overwrites_with_long_values_keep_logs_bounded() -> Result<()> {
    let dir = MemDir::new();
    let mut store = MemStore::open(&dir)?;
    let value = "w".repeat(2000);
    let mut largest = 0u64;
    for i in 0..3000 {
        let key = format!("k{}", i % 2);
        largest = largest.max(PendingRecord::put(key.clone(), value.clone()).len() as u64);
        store.set(key, value.clone())?;
        let live: u64 = ["k0", "k1"].iter().filter_map(|k| store.index.locate(k)).map(|e| e.value_size).sum();
        assert!(dir.size() <= live + COMPACTION_THRESHOLD + largest);
    }
    Ok(())
}
