use redstore::rdb::{parse_snapshot, read_key_value_with_ms_expiry, RdbError, ValueType};
use redstore::store::Database;

const FIXTURE: &[u8] = &[
    0x52, 0x45, 0x44, 0x49, 0x53, 0x30, 0x30, 0x31, 0x31, 0xfa, 0x09, 0x72, 0x65, 0x64, 0x69,
    0x73, 0x2d, 0x76, 0x65, 0x72, 0x05, 0x37, 0x2e, 0x32, 0x2e, 0x34, 0xfa, 0x0a, 0x72, 0x65,
    0x64, 0x69, 0x73, 0x2d, 0x62, 0x69, 0x74, 0x73, 0xc0, 0x40, 0xfa, 0x05, 0x63, 0x74, 0x69,
    0x6d, 0x65, 0xc2, 0x27, 0xcb, 0xb3, 0x65, 0xfa, 0x08, 0x75, 0x73, 0x65, 0x64, 0x2d, 0x6d,
    0x65, 0x6d, 0xc2, 0xa0, 0x86, 0x11, 0x00, 0xfa, 0x08, 0x61, 0x6f, 0x66, 0x2d, 0x62, 0x61,
    0x73, 0x65, 0xc0, 0x00, 0xfe, 0x00, 0xfb, 0x01, 0x00, 0x00, 0x05, 0x6d, 0x79, 0x6b, 0x65,
    0x79, 0x05, 0x6d, 0x79, 0x76, 0x61, 0x6c, 0xff, 0x3d, 0x30, 0xa8, 0x7a, 0xcf, 0x3e, 0x03,
    0x9a,
];

#[test]
fn load_fixture_fills_metadata_and_entries() {
    let mut db = Database::new();
    db.load_snapshot(FIXTURE).unwrap();
    assert_eq!(db.metadata_get("version").unwrap(), "11");
    assert_eq!(db.metadata_get("redis-ver").unwrap(), "7.2.4");
    assert_eq!(db.metadata_get("redis-bits").unwrap(), "64");
    assert_eq!(db.metadata_get("aof-base").unwrap(), "0");
    assert_eq!(db.get("mykey".to_string(), 0), Some("myval".to_string()));
    // The single entry has no expiry: any later clock reading still sees it.
    assert_eq!(
        db.get("mykey".to_string(), u128::MAX),
        Some("myval".to_string())
    );
    assert_eq!(db.keys("*".to_string()), vec!["mykey".to_string()]);
}

#[test]
fn parse_fixture_yields_pairs_in_stream_order() {
    let sc = parse_snapshot(FIXTURE).unwrap();
    assert_eq!(sc.version, 11);
    let keys: Vec<&str> = sc.metadata.iter().map(|p| p.0.as_str()).collect();
    assert_eq!(
        keys,
        vec!["redis-ver", "redis-bits", "ctime", "used-mem", "aof-base"]
    );
    // Integer-encoded metadata values come out as their decimal text.
    assert_eq!(sc.metadata[2].1, "1706281767");
    assert_eq!(sc.metadata[3].1, "1148576");
    assert_eq!(sc.entries.len(), 1);
    assert_eq!(sc.entries[0].0, "mykey");
    assert_eq!(sc.entries[0].1.value, "myval");
    assert_eq!(sc.entries[0].1.expires_at, None);
}

#[test]
fn bad_magic_is_rejected_and_leaves_the_store_empty() {
    let mut bytes = FIXTURE.to_vec();
    bytes[0] = 0x51;
    let mut db = Database::new();
    assert_eq!(db.load_snapshot(&bytes), Err(RdbError::BadMagic));
    assert_eq!(db.keys("*".to_string()), Vec::<String>::new());
    assert_eq!(db.metadata_get("version"), None);
}

#[test]
fn bad_version_is_rejected() {
    let mut bytes = FIXTURE.to_vec();
    bytes[6] = b'x';
    assert_eq!(parse_snapshot(&bytes).unwrap_err(), RdbError::BadVersion);
}

#[test]
fn truncated_buffer_is_rejected() {
    assert_eq!(
        parse_snapshot(&FIXTURE[..5]).unwrap_err(),
        RdbError::Truncated
    );
    // Cut inside the first metadata record.
    assert_eq!(
        parse_snapshot(&FIXTURE[..12]).unwrap_err(),
        RdbError::Truncated
    );
    // No end-of-file opcode at all.
    assert_eq!(
        parse_snapshot(&FIXTURE[..FIXTURE.len() - 9]).unwrap_err(),
        RdbError::Truncated
    );
}

#[test]
fn unsupported_length_selector_is_rejected() {
    // A special length byte whose selector is not a known integer width.
    let mut bytes = FIXTURE.to_vec();
    bytes[38] = 0xc3;
    assert_eq!(
        parse_snapshot(&bytes).unwrap_err(),
        RdbError::UnsupportedLength
    );
}

#[test]
fn unsupported_value_type_is_rejected() {
    let mut bytes = FIXTURE.to_vec();
    // The value-type tag of the implicit key-value record.
    bytes[84] = 0x07;
    assert_eq!(
        parse_snapshot(&bytes).unwrap_err(),
        RdbError::UnsupportedValueType
    );
    assert_eq!(ValueType::try_from(0), Ok(ValueType::String));
    assert_eq!(
        ValueType::try_from(7),
        Err(RdbError::UnsupportedValueType)
    );
}

#[test]
fn millisecond_expiry_record_carries_an_absolute_timestamp() {
    // 0x64 = 100 ms, little endian, then a plain string record k -> v.
    let record = &[
        0x64, 0x00, 0x00, 0x00, 0x00, 0x00, 0x00, 0x00, 0x00, 0x01, b'k', 0x01, b'v',
    ];
    let ((key, entry), read_count) = read_key_value_with_ms_expiry(record).unwrap();
    assert_eq!(key, "k");
    assert_eq!(entry.value, "v");
    assert_eq!(entry.expires_at, Some(100));
    assert_eq!(read_count, 13);
}

#[test]
fn expiring_snapshot_entry_obeys_lazy_expiry() {
    // Header, one expiring record (expiry 100 ms), end of file.
    let mut bytes: Vec<u8> = Vec::new();
    bytes.extend_from_slice(b"REDIS0011");
    bytes.push(0xfc);
    bytes.extend_from_slice(&[0x64, 0, 0, 0, 0, 0, 0, 0]);
    bytes.extend_from_slice(&[0x00, 0x01, b'k', 0x01, b'v']);
    bytes.push(0xff);
    let mut db = Database::new();
    db.load_snapshot(&bytes).unwrap();
    assert_eq!(db.get("k".to_string(), 100), Some("v".to_string()));
    assert_eq!(db.get("k".to_string(), 101), None);
}

#[test]
fn unsupported_opcode_stops_parsing_and_keeps_partial_results() {
    // Header, one metadata pair, then the seconds-expiry opcode, then junk.
    let mut bytes: Vec<u8> = Vec::new();
    bytes.extend_from_slice(b"REDIS0011");
    bytes.push(0xfa);
    bytes.extend_from_slice(&[0x01, b'a', 0x01, b'b']);
    bytes.push(0xfd);
    bytes.extend_from_slice(&[0xde, 0xad, 0xbe, 0xef]);
    let mut db = Database::new();
    db.load_snapshot(&bytes).unwrap();
    assert_eq!(db.metadata_get("a").unwrap(), "b");
    assert_eq!(db.keys("*".to_string()), Vec::<String>::new());
}
