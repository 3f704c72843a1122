use tunadb::codec::{encode, encode_tombstone};
use tunadb::error::EngineError;
use tunadb::storage::{new_engine, new_file_bytes, BinaryEngineV1, Engine};

fn fresh_engine() -> Engine {
    new_engine(new_file_bytes()).unwrap()
}

#[test]
fn new_file_bytes_is_one_version_byte() {
    assert_eq!(new_file_bytes(), vec![0x01]);
}

#[test]
fn get_on_empty_store_finds_nothing() {
    let engine = fresh_engine();
    assert_eq!(engine.get("missing").unwrap(), None);
    assert_eq!(engine.list().unwrap(), Vec::<String>::new());
}

#[test]
fn set_then_get_round_trips() {
    let mut engine = fresh_engine();
    engine.set("key", "value").unwrap();
    assert_eq!(engine.get("key").unwrap(), Some("value".to_string()));
}

#[test]
fn set_twice_shadows_first_value() {
    let mut engine = fresh_engine();
    engine.set("k", "first").unwrap();
    engine.set("k", "second").unwrap();
    assert_eq!(engine.get("k").unwrap(), Some("second".to_string()));
}

#[test]
fn delete_tombstones_key() {
    let mut engine = fresh_engine();
    engine.set("k", "v").unwrap();
    engine.delete("k").unwrap();
    assert_eq!(engine.get("k").unwrap(), None);
    assert!(!engine.list().unwrap().contains(&"k".to_string()));
}

#[test]
fn set_after_delete_resurrects_key() {
    let mut engine = fresh_engine();
    engine.set("k", "v1").unwrap();
    engine.delete("k").unwrap();
    engine.set("k", "v2").unwrap();
    assert_eq!(engine.get("k").unwrap(), Some("v2".to_string()));
    assert!(engine.list().unwrap().contains(&"k".to_string()));
}

#[test]
fn delete_unset_key_is_recorded_not_failed() {
    let mut engine = fresh_engine();
    engine.delete("never").unwrap();
    assert_eq!(engine.get("never").unwrap(), None);
    assert_eq!(engine.list().unwrap(), Vec::<String>::new());
}

/// The same file bytes answer identically through a cold index (fresh
/// engine, lookups fall back to a scan) and a warm one (engine whose
/// index was populated by its own writes).
#[test]
fn cold_and_warm_index_agree() {
    let mut warm = fresh_engine();
    warm.set("alpha", "1").unwrap();
    warm.set("beta", "2").unwrap();
    warm.delete("alpha").unwrap();
    warm.set("gamma", "3").unwrap();

    // Rebuild the same file contents by hand, as they reached the disk.
    let mut bytes = new_file_bytes();
    bytes.extend_from_slice(&encode(b"alpha", b"1").unwrap());
    bytes.extend_from_slice(&encode(b"beta", b"2").unwrap());
    bytes.extend_from_slice(&encode_tombstone(b"alpha").unwrap());
    bytes.extend_from_slice(&encode(b"gamma", b"3").unwrap());
    let cold = new_engine(bytes).unwrap();

    for key in ["alpha", "beta", "gamma", "delta"] {
        assert_eq!(cold.get(key).unwrap(), warm.get(key).unwrap());
    }
    let mut cold_keys = cold.list().unwrap();
    let mut warm_keys = warm.list().unwrap();
    cold_keys.sort();
    warm_keys.sort();
    assert_eq!(cold_keys, warm_keys);
}

#[test]
fn list_reports_exactly_live_keys() {
    let mut engine = fresh_engine();
    engine.set("a", "1").unwrap();
    engine.set("b", "2").unwrap();
    engine.set("c", "3").unwrap();
    engine.delete("b").unwrap();
    engine.set("a", "9").unwrap();
    let mut keys = engine.list().unwrap();
    keys.sort();
    assert_eq!(keys, vec!["a".to_string(), "c".to_string()]);
}

/// Inserting then deleting N distinct keys leaves nothing listed.
#[test]
fn insert_then_delete_all_yields_empty_list() {
    let mut engine = fresh_engine();
    let keys: Vec<String> = (0..20).map(|i| format!("key{}", i)).collect();
    for key in &keys {
        engine.set(key, "v").unwrap();
    }
    for key in &keys {
        engine.delete(key).unwrap();
    }
    assert_eq!(engine.list().unwrap(), Vec::<String>::new());
}

#[test]
fn distinct_writes_are_all_visible() {
    let mut engine = fresh_engine();
    for i in 0..50 {
        engine.set(&format!("key{}", i), &format!("value{}", i)).unwrap();
    }
    let listed = engine.list().unwrap();
    assert_eq!(listed.len(), 50);
    for i in 0..50 {
        let key = format!("key{}", i);
        assert!(listed.contains(&key));
        assert_eq!(engine.get(&key).unwrap(), Some(format!("value{}", i)));
    }
}

#[test]
fn boundary_lengths_round_trip() {
    let mut engine = fresh_engine();
    let key = "k".repeat(255);
    let value = "v".repeat(65535);
    engine.set(&key, &value).unwrap();
    assert_eq!(engine.get(&key).unwrap(), Some(value));
}

#[test]
fn overlong_key_is_rejected() {
    let mut engine = fresh_engine();
    let key = "k".repeat(256);
    assert_eq!(engine.set(&key, "v"), Err(EngineError::KeyTooLong));
    assert_eq!(engine.delete(&key), Err(EngineError::KeyTooLong));
    assert_eq!(engine.get(&key).unwrap(), None);
}

#[test]
fn overlong_value_is_rejected() {
    let mut engine = fresh_engine();
    let value = "v".repeat(65536);
    assert_eq!(engine.set("k", &value), Err(EngineError::ValueTooLong));
    assert_eq!(engine.get("k").unwrap(), None);
}

#[test]
fn multibyte_keys_and_values_round_trip() {
    let mut engine = fresh_engine();
    engine.set("clé", "välue — ✓").unwrap();
    assert_eq!(engine.get("clé").unwrap(), Some("välue — ✓".to_string()));
    assert_eq!(engine.list().unwrap(), vec!["clé".to_string()]);
}

#[test]
fn empty_key_and_value_round_trip() {
    let mut engine = fresh_engine();
    engine.set("", "").unwrap();
    assert_eq!(engine.get("").unwrap(), Some(String::new()));
    assert_eq!(engine.list().unwrap(), vec![String::new()]);
}

#[test]
fn selector_rejects_empty_file() {
    assert_eq!(new_engine(Vec::new()).err(), Some(EngineError::CorruptLog));
}

#[test]
fn selector_refuses_reserved_version() {
    assert_eq!(
        new_engine(vec![0x02]).err(),
        Some(EngineError::UnimplementedEngine { version: 2 })
    );
}

#[test]
fn selector_refuses_unknown_version() {
    assert_eq!(
        new_engine(vec![0x09]).err(),
        Some(EngineError::UnsupportedVersion { version: 9 })
    );
}

#[test]
fn open_rejects_truncated_record() {
    let mut bytes = new_file_bytes();
    bytes.extend_from_slice(&[0x05, b'a']);
    assert_eq!(new_engine(bytes).err(), Some(EngineError::CorruptLog));
}

#[test]
fn open_rejects_bad_tombstone_flag() {
    let mut bytes = new_file_bytes();
    bytes.extend_from_slice(&[0x01, b'k', 0x00, 0x01, b'v', 0x03]);
    assert_eq!(new_engine(bytes).err(), Some(EngineError::CorruptLog));
}

#[test]
fn open_rejects_invalid_utf8_key() {
    let mut bytes = new_file_bytes();
    // 0xff is not valid UTF-8
    bytes.extend_from_slice(&[0x01, 0xff, 0x00, 0x01, b'v', 0x00]);
    assert_eq!(new_engine(bytes).err(), Some(EngineError::CorruptLog));
}

#[test]
fn open_accepts_existing_log_and_reads_it() {
    let mut bytes = new_file_bytes();
    bytes.extend_from_slice(&encode(b"k", b"old").unwrap());
    bytes.extend_from_slice(&encode(b"k", b"new").unwrap());
    let engine = BinaryEngineV1::new(bytes).unwrap();
    assert_eq!(engine.get("k").unwrap(), Some("new".to_string()));
}

#[test]
fn error_messages_are_stable() {
    assert_eq!(
        EngineError::KeyTooLong.message(),
        "key too long (max 255 bytes)"
    );
    assert_eq!(
        EngineError::ValueTooLong.message(),
        "value too long (max 65535 bytes)"
    );
    assert_eq!(EngineError::CorruptLog.message(), "corrupt log");
}
