use minikv::load::{get_string_encoded_len, load_db, load_expiry, DecodeError, ExpiryType, LenEncoding};

fn header() -> Vec<u8> {
    // magic, version, database-selector marker, four size-hint bytes
    let mut b = b"REDIS0011".to_vec();
    b.push(0xFE);
    b.extend_from_slice(&[0, 0, 0, 0]);
    b
}

fn record(key: &[u8], value: &[u8]) -> Vec<u8> {
    let mut b = vec![0u8, key.len() as u8];
    b.extend_from_slice(key);
    b.push(value.len() as u8);
    b.extend_from_slice(value);
    b
}

#[test]
fn round_trip_two_records() {
    let mut b = header();
    b.extend_from_slice(&record(b"foo", b"bar"));
    b.extend_from_slice(&record(b"baz", b"qx"));
    b.push(0xFF);
    let db = load_db(&b, 1000, 1_000_000).unwrap();
    assert_eq!(db.get(&b"foo".to_vec()), Some(b"bar".to_vec()));
    assert_eq!(db.get(&b"baz".to_vec()), Some(b"qx".to_vec()));
    assert_eq!(db.len(), 2);
}

#[test]
fn later_record_wins() {
    let mut b = header();
    b.extend_from_slice(&record(b"k", b"old"));
    b.extend_from_slice(&record(b"k", b"new"));
    b.push(0xFF);
    let db = load_db(&b, 0, 0).unwrap();
    assert_eq!(db.get(&b"k".to_vec()), Some(b"new".to_vec()));
    assert_eq!(db.len(), 1);
}

#[test]
fn past_expiry_ms_excluded_but_parsed() {
    let mut b = header();
    b.push(0xFC);
    b.extend_from_slice(&1000u64.to_le_bytes());
    b.extend_from_slice(&record(b"gone", b"v1"));
    b.extend_from_slice(&record(b"kept", b"v2"));
    b.push(0xFF);
    // now = 2000 ms: the first record expired; parsing still advanced past it
    let db = load_db(&b, 2, 2000).unwrap();
    assert_eq!(db.get(&b"gone".to_vec()), None);
    assert_eq!(db.get(&b"kept".to_vec()), Some(b"v2".to_vec()));
    assert_eq!(db.len(), 1);
}

#[test]
fn future_expiry_ms_included() {
    let mut b = header();
    b.push(0xFC);
    b.extend_from_slice(&5000u64.to_le_bytes());
    b.extend_from_slice(&record(b"soon", b"v"));
    b.push(0xFF);
    let db = load_db(&b, 2, 2000).unwrap();
    assert_eq!(db.get(&b"soon".to_vec()), Some(b"v".to_vec()));
}

#[test]
fn expiry_boundary_is_strict() {
    // a timestamp equal to the current time is not strictly greater: expired
    let mut b = header();
    b.push(0xFC);
    b.extend_from_slice(&2000u64.to_le_bytes());
    b.extend_from_slice(&record(b"edge", b"v"));
    b.push(0xFF);
    let db = load_db(&b, 2, 2000).unwrap();
    assert_eq!(db.get(&b"edge".to_vec()), None);
}

#[test]
fn past_expiry_seconds_excluded() {
    let mut b = header();
    b.push(0xFD);
    b.extend_from_slice(&100u32.to_le_bytes());
    b.extend_from_slice(&record(b"old", b"v"));
    b.push(0xFF);
    let db = load_db(&b, 200, 200_000).unwrap();
    assert_eq!(db.get(&b"old".to_vec()), None);
}

#[test]
fn future_expiry_seconds_included() {
    let mut b = header();
    b.push(0xFD);
    b.extend_from_slice(&300u32.to_le_bytes());
    b.extend_from_slice(&record(b"new", b"v"));
    b.push(0xFF);
    let db = load_db(&b, 200, 200_000).unwrap();
    assert_eq!(db.get(&b"new".to_vec()), Some(b"v".to_vec()));
}

#[test]
fn fourteen_bit_key_length_refused() {
    let mut b = header();
    b.push(0x00); // value type
    b.push(0x41); // 14-bit length scheme
    b.push(0x05); // its second byte
    b.push(0xFF);
    assert!(matches!(load_db(&b, 0, 0), Err(DecodeError::UnsupportedLength)));
}

#[test]
fn thirty_two_bit_value_length_refused() {
    let mut b = header();
    b.push(0x00);
    b.push(0x01); // key of one byte
    b.push(b'k');
    b.push(0x81); // 32-bit length scheme for the value
    b.extend_from_slice(&[1, 0, 0, 0, 0]);
    b.push(0xFF);
    assert!(matches!(load_db(&b, 0, 0), Err(DecodeError::UnsupportedLength)));
}

#[test]
fn special_length_scheme_refused() {
    let mut b = header();
    b.push(0x00);
    b.push(0xC3); // special non-string encoding
    b.push(0xFF);
    assert!(matches!(load_db(&b, 0, 0), Err(DecodeError::UnsupportedLength)));
}

#[test]
fn bad_magic_refused() {
    let mut b = b"RODIS0011".to_vec();
    b.push(0xFF);
    assert!(matches!(load_db(&b, 0, 0), Err(DecodeError::BadMagic)));
}

#[test]
fn short_buffer_refused() {
    assert!(matches!(load_db(&b"RED".to_vec(), 0, 0), Err(DecodeError::Truncated)));
    assert!(matches!(load_db(&b"REDIS01".to_vec(), 0, 0), Err(DecodeError::Truncated)));
}

#[test]
fn missing_end_marker_refused() {
    let mut b = header();
    b.extend_from_slice(&record(b"a", b"b"));
    // no end-of-file marker
    assert!(matches!(load_db(&b, 0, 0), Err(DecodeError::Truncated)));
}

#[test]
fn truncated_record_refused() {
    let mut b = header();
    b.push(0x00);
    b.push(0x05); // key of five bytes, but only two follow
    b.push(b'a');
    b.push(b'b');
    assert!(matches!(load_db(&b, 0, 0), Err(DecodeError::Truncated)));
}

#[test]
fn invalid_utf8_key_refused() {
    let mut b = header();
    b.push(0x00);
    b.push(0x01);
    b.push(0xFB); // a lone continuation-range byte is not valid text
    b.push(0x00);
    b.push(0xFF);
    assert!(matches!(load_db(&b, 0, 0), Err(DecodeError::InvalidUtf8)));
}

#[test]
fn empty_record_section() {
    let mut b = header();
    b.push(0xFF);
    let db = load_db(&b, 0, 0).unwrap();
    assert_eq!(db.len(), 0);
}

#[test]
fn last_selector_marker_wins() {
    // an earlier selector byte is ignored: only the last one counts
    let mut b = b"REDIS0011".to_vec();
    b.push(0xFE);
    b.extend_from_slice(&[9, 9, 9, 9]);
    b.push(0xFE);
    b.extend_from_slice(&[0, 0, 0, 0]);
    b.extend_from_slice(&record(b"x", b"y"));
    b.push(0xFF);
    let db = load_db(&b, 0, 0).unwrap();
    assert_eq!(db.get(&b"x".to_vec()), Some(b"y".to_vec()));
}

#[test]
fn length_encoding_schemes() {
    assert!(matches!(get_string_encoded_len(&vec![0x05], 0), Ok(LenEncoding::NextSixBits(5))));
    // six low bits of the first byte, then the next byte
    assert!(matches!(get_string_encoded_len(&vec![0x41, 0x02], 0), Ok(LenEncoding::NextByte(513))));
    assert!(matches!(
        get_string_encoded_len(&vec![0x81, 1, 0, 0, 0], 0),
        Ok(LenEncoding::NextFourBytes(1))
    ));
    assert!(matches!(get_string_encoded_len(&vec![0xC0], 0), Ok(LenEncoding::SpecialFormat)));
    assert!(matches!(get_string_encoded_len(&vec![0x41], 0), Err(DecodeError::Truncated)));
    assert!(matches!(get_string_encoded_len(&vec![], 0), Err(DecodeError::Truncated)));
}

#[test]
fn expiry_timestamps_are_little_endian() {
    let mut b = vec![0xFC];
    b.extend_from_slice(&1000u64.to_le_bytes());
    assert_eq!(load_expiry(&b, 0, ExpiryType::Milliseconds, 0, 999), Ok((true, 9)));
    assert_eq!(load_expiry(&b, 0, ExpiryType::Milliseconds, 0, 1000), Ok((false, 9)));
    let mut b = vec![0xFD];
    b.extend_from_slice(&50u32.to_le_bytes());
    assert_eq!(load_expiry(&b, 0, ExpiryType::Seconds, 49, 0), Ok((true, 5)));
    assert_eq!(load_expiry(&b, 0, ExpiryType::Seconds, 50, 0), Ok((false, 5)));
}
