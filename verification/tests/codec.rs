use cask_db::format::{KeyValue, StoreError};

fn record(ts: u64, key: &str, value: &str) -> KeyValue {
    KeyValue::new(ts, key.to_string(), value.to_string())
}

#[test]
fn round_trip_yields_same_record() {
    let kv = record(1234567890, "hello", "world");
    let bytes = kv.to_bytes();
    assert_eq!(bytes.len(), 28 + 5 + 5);
    let back = KeyValue::from_bytes(&bytes).unwrap();
    assert_eq!(back.crc, kv.crc);
    assert_eq!(back.timestamp, 1234567890);
    assert_eq!(back.key, "hello");
    assert_eq!(back.value, "world");
    assert!(back.verify());
}

#[test]
fn round_trip_empty_value() {
    let kv = record(7, "k", "");
    let back = KeyValue::from_bytes(&kv.to_bytes()).unwrap();
    assert_eq!(back.key, "k");
    assert_eq!(back.value, "");
    assert!(back.verify());
}

#[test]
fn round_trip_multibyte_utf8() {
    let kv = record(42, "clé", "värde—漢");
    let back = KeyValue::from_bytes(&kv.to_bytes()).unwrap();
    assert_eq!(back.key, "clé");
    assert_eq!(back.value, "värde—漢");
    assert!(back.verify());
}

#[test]
fn checksum_matches_reference_computation() {
    // The checksum domain is timestamp ‖ key ‖ value, timestamp big-endian,
    // and deliberately excludes the size fields.
    let kv = record(99, "abc", "xyz");
    let mut domain: Vec<u8> = Vec::new();
    domain.extend_from_slice(&99u64.to_be_bytes());
    domain.extend_from_slice(b"abc");
    domain.extend_from_slice(b"xyz");
    let expected = crc::Crc::<u32>::new(&crc::CRC_32_ISO_HDLC).checksum(&domain);
    assert_eq!(kv.crc, expected);
}

#[test]
fn header_layout_is_fixed_width_big_endian() {
    let kv = record(0x0102030405060708, "ab", "cde");
    let header = kv.encode_header();
    assert_eq!(header.len(), 28);
    assert_eq!(&header[0..4], &kv.crc.to_be_bytes());
    assert_eq!(&header[4..12], &[1, 2, 3, 4, 5, 6, 7, 8]);
    assert_eq!(&header[12..20], &2u64.to_be_bytes());
    assert_eq!(&header[20..28], &3u64.to_be_bytes());
}

#[test]
fn decode_header_reads_the_fields_back() {
    let kv = record(555, "key", "value");
    let bytes = kv.to_bytes();
    let (crc_v, ts, ks, vs) = KeyValue::decode_header(&bytes).unwrap();
    assert_eq!(crc_v, kv.crc);
    assert_eq!(ts, 555);
    assert_eq!(ks, 3);
    assert_eq!(vs, 5);
}

#[test]
fn short_buffer_is_invalid() {
    assert_eq!(KeyValue::decode_header(&[0u8; 27]), Err(StoreError::InvalidRecord));
    assert!(matches!(KeyValue::from_bytes(&[0u8; 27]), Err(StoreError::InvalidRecord)));
}

#[test]
fn truncated_payload_is_invalid() {
    let bytes = record(1, "hello", "world").to_bytes();
    assert!(matches!(KeyValue::from_bytes(&bytes[..bytes.len() - 1]), Err(StoreError::InvalidRecord)));
}

#[test]
fn invalid_utf8_is_invalid() {
    let mut bytes = record(1, "he", "wo").to_bytes();
    bytes[28] = 0xff;
    assert!(matches!(KeyValue::from_bytes(&bytes), Err(StoreError::InvalidRecord)));
}

#[test]
fn corrupting_a_byte_fails_verification() {
    let bytes = record(1, "hello", "world").to_bytes();
    let mut bad = bytes.clone();
    let last = bad.len() - 1;
    bad[last] ^= 0x01;
    let kv = KeyValue::from_bytes(&bad).unwrap();
    assert!(!kv.verify());
}

#[test]
fn verify_detects_wrong_stored_checksum() {
    let mut kv = record(1, "a", "b");
    assert!(kv.verify());
    kv.crc ^= 0xdead_beef;
    assert!(!kv.verify());
}
