use notus::schema::{crc32, DataEntry, HintEntry, decode_hint_stream, push_u32_be, read_u32_be};

#[test]
fn data_record_round_trip() {
    let entry = DataEntry::new(vec![1, 2, 3], vec![9, 8, 7, 6], 123456789);
    let encoded = entry.encode();
    assert_eq!(encoded.len(), 20 + 3 + 4);
    let (decoded, next) = DataEntry::decode(&encoded, 0).unwrap();
    assert_eq!(next, encoded.len());
    assert_eq!(decoded.key(), &vec![1, 2, 3]);
    assert_eq!(decoded.value(), vec![9, 8, 7, 6]);
    assert_eq!(decoded.timestamp(), 123456789);
    assert!(decoded.check_crc());
}

#[test]
fn data_record_layout_is_big_endian() {
    let entry = DataEntry::new(vec![0xAA], vec![0xBB, 0xCC], 1);
    let encoded = entry.encode();
    // timestamp
    assert_eq!(&encoded[4..12], &[0, 0, 0, 0, 0, 0, 0, 1]);
    // key and value sizes
    assert_eq!(&encoded[12..16], &[0, 0, 0, 1]);
    assert_eq!(&encoded[16..20], &[0, 0, 0, 2]);
    // payloads
    assert_eq!(&encoded[20..21], &[0xAA]);
    assert_eq!(&encoded[21..23], &[0xBB, 0xCC]);
}

#[test]
fn hint_record_round_trip() {
    let data = DataEntry::new(vec![5, 5], vec![1, 2, 3], 42);
    let hint = HintEntry::from(&data, 77);
    let encoded = hint.encode();
    assert_eq!(encoded.len(), 25 + 2);
    let (decoded, next) = HintEntry::decode(&encoded, 0).unwrap();
    assert_eq!(next, encoded.len());
    assert_eq!(decoded.key(), vec![5, 5]);
    assert_eq!(decoded.key_size(), 2);
    assert_eq!(decoded.value_size(), 3);
    assert_eq!(decoded.data_entry_position(), 77);
    assert!(!decoded.is_deleted());
    assert_eq!(decoded.timestamp(), 42);
}

#[test]
fn tombstone_round_trip() {
    let hint = HintEntry::tombstone(vec![7, 8, 9], 100);
    let encoded = hint.encode();
    let (decoded, _) = HintEntry::decode(&encoded, 0).unwrap();
    assert!(decoded.is_deleted());
    assert_eq!(decoded.key(), vec![7, 8, 9]);
    assert_eq!(decoded.value_size(), 0);
    assert_eq!(decoded.data_entry_position(), 0);
}

#[test]
fn truncated_records_fail_to_decode() {
    let entry = DataEntry::new(vec![1], vec![2], 3);
    let mut encoded = entry.encode();
    encoded.pop();
    assert!(DataEntry::decode(&encoded, 0).is_err());
    let short: Vec<u8> = vec![0; 10];
    assert!(DataEntry::decode(&short, 0).is_err());
    assert!(HintEntry::decode(&short, 0).is_err());
}

#[test]
fn hint_stream_tolerates_torn_tail() {
    let h1 = HintEntry::tombstone(vec![1], 5);
    let h2 = HintEntry::tombstone(vec![2], 6);
    let mut stream = h1.encode();
    stream.extend(h2.encode());
    stream.pop(); // tear the last record
    let hints = decode_hint_stream(&stream);
    assert_eq!(hints.len(), 1);
    assert_eq!(hints[0].key(), vec![1]);
}

#[test]
fn crc32_matches_reference_value() {
    let data: Vec<u8> = b"123456789".to_vec();
    assert_eq!(crc32(&data), 0xCBF43926);
    assert_eq!(crc32(&Vec::new()), 0);
}

#[test]
fn big_endian_field_round_trip() {
    let mut out: Vec<u8> = Vec::new();
    push_u32_be(&mut out, 0x12345678);
    assert_eq!(out, vec![0x12, 0x34, 0x56, 0x78]);
    assert_eq!(read_u32_be(&out, 0), 0x12345678);
}
