use meshanina::{new_record, Record, MAX_RECORD_BODYLEN, RECORD_SIZE};

#[test]
fn record_layout() {
    let key = [7u8; 32];
    let rec = new_record(&key, 5, b"hello");
    assert_eq!(rec.len(), RECORD_SIZE);
    assert_eq!(&rec[0..4], &crc32fast::hash(&rec[4..]).to_le_bytes());
    assert_eq!(&rec[4..36], &key);
    assert_eq!(&rec[36..40], &5u32.to_le_bytes());
    assert_eq!(&rec[40..45], b"hello");
    assert!(rec[45..].iter().all(|b| *b == 0));
}

#[test]
fn record_accessors() {
    let key = [3u8; 32];
    let rec = new_record(&key, 5, b"hello");
    let r = Record(&rec).validate().unwrap();
    assert_eq!(r.key(), key);
    assert!(r.has_key(&key));
    assert!(!r.has_key(&[4u8; 32]));
    assert_eq!(r.length(), 5);
    assert_eq!(r.value(), b"hello");
}

#[test]
fn header_record_body_is_full_and_zero() {
    let key = [1u8; 32];
    let rec = new_record(&key, 2000, &[]);
    let r = Record(&rec).validate().unwrap();
    assert_eq!(r.length(), 2000);
    assert_eq!(r.value().len(), MAX_RECORD_BODYLEN);
    assert!(r.value().iter().all(|b| *b == 0));
}

#[test]
fn zero_slot_is_free() {
    let slot = [0u8; RECORD_SIZE];
    assert!(Record(&slot).validate().is_none());
}

#[test]
fn zero_checksum_is_rejected_even_if_it_matches() {
    let mut rec = new_record(&[9u8; 32], 3, b"abc");
    rec[0..4].copy_from_slice(&[0, 0, 0, 0]);
    assert!(Record(&rec).validate().is_none());
}

#[test]
fn corrupt_record_fails_validation() {
    let mut rec = new_record(&[5u8; 32], 3, b"abc");
    rec[41] ^= 0xff;
    assert!(Record(&rec).validate().is_none());
    let mut rec = new_record(&[5u8; 32], 3, b"abc");
    rec[0] ^= 0x01;
    assert!(Record(&rec).validate().is_none());
}

#[test]
fn legacy_checksum_is_accepted() {
    let mut rec = new_record(&[6u8; 32], 4, b"data");
    let crc = crc::Crc::<u32>::new(&crc::CRC_32_ISO_HDLC).checksum(&rec[4..]);
    rec[0..4].copy_from_slice(&crc.to_le_bytes());
    assert!(Record(&rec).validate().is_some());
}

#[test]
fn round_trip_keeps_meaningful_fields() {
    let key = [0xabu8; 32];
    let body: Vec<u8> = (0..100u8).collect();
    let rec = new_record(&key, 100, &body);
    let r = Record(&rec).validate().unwrap();
    let again = new_record(&r.key(), r.length(), r.value());
    assert_eq!(again[..], rec[..]);
}

#[test]
fn round_trip_zeroes_trailing_padding() {
    let key = [0x11u8; 32];
    let mut rec = new_record(&key, 10, b"0123456789");
    rec[100] = 0x55;
    let crc = crc32fast::hash(&rec[4..]);
    rec[0..4].copy_from_slice(&crc.to_le_bytes());
    let r = Record(&rec).validate().unwrap();
    let again = new_record(&r.key(), r.length(), r.value());
    assert_eq!(again[4..50], rec[4..50]);
    assert_eq!(again[100], 0);
    assert_ne!(again[0..4], rec[0..4]);
}

#[test]
fn short_body_with_longer_length_is_zero_padded() {
    let rec = new_record(&[2u8; 32], 8, b"abc");
    let r = Record(&rec).validate().unwrap();
    assert_eq!(r.length(), 8);
    assert_eq!(r.value(), &[b'a', b'b', b'c', 0, 0, 0, 0, 0]);
}
