use tunadb::codec::{decode_next, encode, encode_tombstone};
use tunadb::error::EngineError;

#[test]
fn encode_produces_documented_layout() {
    // key "key", value "value":
    // [len 3] "key" [len 0x0005 big-endian] "value" [tombstone 0]
    let bytes = encode(b"key", b"value").unwrap();
    assert_eq!(
        bytes,
        vec![0x03, 0x6b, 0x65, 0x79, 0x00, 0x05, 0x76, 0x61, 0x6c, 0x75, 0x65, 0x00]
    );
}

#[test]
fn encode_empty_key_and_value() {
    let bytes = encode(b"", b"").unwrap();
    assert_eq!(bytes, vec![0x00, 0x00, 0x00, 0x00]);
}

#[test]
fn encode_value_length_is_big_endian() {
    let value = vec![0x61u8; 0x0102];
    let bytes = encode(b"k", &value).unwrap();
    assert_eq!(bytes[0], 0x01);
    assert_eq!(bytes[1], b'k');
    assert_eq!(bytes[2], 0x01);
    assert_eq!(bytes[3], 0x02);
    assert_eq!(bytes.len(), 1 + 1 + 2 + 0x0102 + 1);
}

#[test]
fn encode_rejects_long_key() {
    let key = vec![b'a'; 256];
    assert_eq!(encode(&key, b"v"), Err(EngineError::KeyTooLong));
}

#[test]
fn encode_rejects_long_value() {
    let value = vec![b'v'; 65536];
    assert_eq!(encode(b"k", &value), Err(EngineError::ValueTooLong));
}

#[test]
fn encode_accepts_boundary_lengths() {
    let key = vec![b'a'; 255];
    let value = vec![b'v'; 65535];
    let bytes = encode(&key, &value).unwrap();
    assert_eq!(bytes.len(), 1 + 255 + 2 + 65535 + 1);
    assert_eq!(bytes[0], 255);
    assert_eq!(bytes[256], 0xff);
    assert_eq!(bytes[257], 0xff);
    assert_eq!(*bytes.last().unwrap(), 0x00);
}

#[test]
fn encode_tombstone_produces_documented_layout() {
    // [len 3] "key" [len 0x0001] [0x00 placeholder] [tombstone 1]
    let bytes = encode_tombstone(b"key").unwrap();
    assert_eq!(bytes, vec![0x03, 0x6b, 0x65, 0x79, 0x00, 0x01, 0x00, 0x01]);
}

#[test]
fn encode_tombstone_rejects_long_key() {
    let key = vec![b'a'; 256];
    assert_eq!(encode_tombstone(&key), Err(EngineError::KeyTooLong));
}

#[test]
fn decode_next_round_trips_encode() {
    let bytes = encode(b"key", b"value").unwrap();
    let (record, next) = decode_next(&bytes, 0).unwrap().unwrap();
    assert_eq!(record.key, b"key".to_vec());
    assert_eq!(record.value, b"value".to_vec());
    assert!(!record.tombstone);
    assert_eq!(next, bytes.len());
}

#[test]
fn decode_next_round_trips_tombstone() {
    let bytes = encode_tombstone(b"gone").unwrap();
    let (record, next) = decode_next(&bytes, 0).unwrap().unwrap();
    assert_eq!(record.key, b"gone".to_vec());
    assert!(record.tombstone);
    assert_eq!(next, bytes.len());
}

#[test]
fn decode_next_reports_end_of_input() {
    let bytes = encode(b"k", b"v").unwrap();
    let n = bytes.len();
    assert!(decode_next(&bytes, n).unwrap().is_none());
}

#[test]
fn decode_next_walks_consecutive_records() {
    let mut bytes = encode(b"a", b"1").unwrap();
    bytes.extend_from_slice(&encode(b"b", b"2").unwrap());
    let (first, mid) = decode_next(&bytes, 0).unwrap().unwrap();
    let (second, end) = decode_next(&bytes, mid).unwrap().unwrap();
    assert_eq!(first.key, b"a".to_vec());
    assert_eq!(second.key, b"b".to_vec());
    assert_eq!(second.value, b"2".to_vec());
    assert_eq!(end, bytes.len());
}

#[test]
fn decode_next_rejects_truncated_key() {
    // declared key length 5, but only two key bytes follow
    let bytes = vec![0x05, b'a', b'b'];
    assert_eq!(decode_next(&bytes, 0), Err(EngineError::CorruptLog));
}

#[test]
fn decode_next_rejects_truncated_value() {
    // declared value length 4, but only one value byte and no tombstone
    let bytes = vec![0x01, b'k', 0x00, 0x04, b'v'];
    assert_eq!(decode_next(&bytes, 0), Err(EngineError::CorruptLog));
}

#[test]
fn decode_next_rejects_bad_tombstone_flag() {
    let bytes = vec![0x01, b'k', 0x00, 0x01, b'v', 0x07];
    assert_eq!(decode_next(&bytes, 0), Err(EngineError::CorruptLog));
}
