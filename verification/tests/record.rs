//! The log record format.

use kvs::kv::{IndexEntry, KvIndex, PendingRecord, Recovery};
use kvs::record::Command;
use kvs::KvsError;

fn entry_for(bytes: &[u8]) -> IndexEntry {
    IndexEntry { log_id: 0, value_position: 0, value_size: bytes.len() as u64 }
}

#[test]
fn put_record_bytes() {
    let p = PendingRecord::put("key".into(), "value".into());
    assert_eq!(p.bytes(), &[0, 3, b'k', b'e', b'y', 5, b'v', b'a', b'l', b'u', b'e']);
    assert_eq!(p.len(), 11);
}

#[test]
fn remove_record_bytes() {
    let p = PendingRecord::remove("ab".into());
    assert_eq!(p.bytes(), &[1, 2, b'a', b'b']);
}

#[test]
fn string_length_is_a_varint() {
    let p = PendingRecord::put(String::new(), "v".repeat(300));
    // 300 = 0b10_0101100: 0xAC, then 0x02.
    assert_eq!(&p.bytes()[..4], &[0, 0, 0xAC, 0x02]);
    assert_eq!(p.len(), 4 + 300);
}

#[test]
fn utf8_bytes_are_written() {
    let p = PendingRecord::remove("\u{65E5}".into());
    assert_eq!(p.bytes(), &[1, 3, 0xE6, 0x97, 0xA5]);
}

#[test]
fn value_from_put_record() {
    let p = PendingRecord::put("k".into(), "value".into());
    assert_eq!(KvIndex::value_from_record(p.bytes(), entry_for(p.bytes())).unwrap(), "value");
}

#[test]
fn value_from_record_ignores_trailing_bytes() {
    let p = PendingRecord::put("k".into(), "v".into());
    let mut bytes = p.bytes().to_vec();
    bytes.extend_from_slice(&[9, 9, 9]);
    assert_eq!(KvIndex::value_from_record(&bytes, entry_for(p.bytes())).unwrap(), "v");
}

#[test]
fn value_from_remove_record_is_unexpected_command() {
    let p = PendingRecord::remove("k".into());
    assert!(matches!(
        KvIndex::value_from_record(p.bytes(), entry_for(p.bytes())),
        Err(KvsError::UnexpectedCommandType)
    ));
}

#[test]
fn value_from_short_record_is_unexpected_end() {
    let p = PendingRecord::put("k".into(), "value".into());
    let bytes = p.bytes();
    assert!(matches!(
        KvIndex::value_from_record(&bytes[..bytes.len() - 1], entry_for(bytes)),
        Err(KvsError::Serde(postcard::Error::DeserializeUnexpectedEnd))
    ));
}

#[test]
fn value_longer_than_scratch_is_unexpected_end() {
    let p = PendingRecord::put("k".into(), "abcdef".into());
    let short = IndexEntry { log_id: 0, value_position: 0, value_size: 5 };
    assert!(matches!(
        KvIndex::value_from_record(p.bytes(), short),
        Err(KvsError::Serde(postcard::Error::DeserializeUnexpectedEnd))
    ));
}

#[test]
fn invalid_utf8_is_rejected() {
    let bytes = [0, 1, 0xFF, 0];
    assert!(matches!(
        KvIndex::value_from_record(&bytes, entry_for(&bytes)),
        Err(KvsError::Serde(postcard::Error::DeserializeBadUtf8))
    ));
}

#[test]
fn replay_reads_records_in_order() {
    let mut bytes = PendingRecord::put("a".into(), "1".into()).bytes().to_vec();
    bytes.extend_from_slice(PendingRecord::put("b".into(), "2".into()).bytes());
    bytes.extend_from_slice(PendingRecord::put("a".into(), "3".into()).bytes());
    bytes.extend_from_slice(PendingRecord::remove("b".into()).bytes());
    let mut recovery = Recovery::new();
    recovery.replay_log(4, &bytes).unwrap();
    let index = recovery.finish();
    assert_eq!(index.len(), 1);
    assert_eq!(index.locate("a"), Some(IndexEntry { log_id: 4, value_position: 10, value_size: 5 }));
    assert_eq!(index.locate("b"), None);
    // The first put of `a` (5 bytes), the put of `b` (5) and the removal of
    // `b` (3) are dead.
    assert_eq!(index.uncompacted_bytes(), 13);
    assert_eq!(index.current_log_id(), 4);
    assert_eq!(index.active_len(), 18);
}

#[test]
fn command_descriptions() {
    assert_eq!(Command::Put { key: "k".into(), value: "v".into() }.describe(), "set k v");
    assert_eq!(Command::Remove { key: "k".into() }.describe(), "rm k");
}

#[test]
fn index_entry_description() {
    let e = IndexEntry { log_id: 3, value_position: 1024, value_size: 0 };
    assert_eq!(e.describe(), "id=3 pos=1024 sz=0");
    let big = IndexEntry { log_id: u64::MAX, value_position: 10, value_size: 9 };
    assert_eq!(big.describe(), "id=18446744073709551615 pos=10 sz=9");
}
