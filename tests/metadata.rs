use pageserver_tenant::error::TenantError;
use pageserver_tenant::id::TimelineId;
use pageserver_tenant::key::Key;
use pageserver_tenant::lsn::Lsn;
use pageserver_tenant::metadata::{TimelineMetadata, METADATA_MAX_SIZE};

fn sample() -> TimelineMetadata {
    TimelineMetadata::new(
        Lsn(0x1234_5678_9abc),
        Some(Lsn(0x1234_5678_9ab0)),
        Some(TimelineId(0x11223344556677881122334455667788)),
        Lsn(0x40),
        Lsn(0x30),
        Lsn(0x10),
        15,
    )
}

#[test]
fn metadata_round_trips() {
    let m = sample();
    let bytes = m.to_bytes();
    assert_eq!(bytes.len(), METADATA_MAX_SIZE);
    assert_eq!(TimelineMetadata::from_bytes(&bytes), Ok(m));

    let root = TimelineMetadata::new(Lsn(0), None, None, Lsn(0), Lsn(0x50), Lsn(0x50), 14);
    assert_eq!(TimelineMetadata::from_bytes(&root.to_bytes()), Ok(root));
    assert_eq!(root.ancestor_timeline(), None);
    assert_eq!(root.pg_version(), 14);
}

#[test]
fn metadata_layout_is_little_endian() {
    let bytes = sample().to_bytes();
    // size and format version of the header
    assert_eq!(&bytes[4..8], &[62, 0, 4, 0]);
    // disk-consistent LSN
    assert_eq!(&bytes[8..16], &[0xbc, 0x9a, 0x78, 0x56, 0x34, 0x12, 0, 0]);
    // checksum over everything after it
    assert_eq!(u32::from_le_bytes([bytes[0], bytes[1], bytes[2], bytes[3]]), crc32c::crc32c(&bytes[4..]));
    assert!(bytes[70..].iter().all(|b| *b == 0));
}

#[test]
fn every_flipped_byte_is_detected() {
    let bytes = sample().to_bytes();
    for i in 0..METADATA_MAX_SIZE {
        let mut b = bytes.clone();
        b[i] ^= 0x40;
        assert_eq!(TimelineMetadata::from_bytes(&b), Err(TenantError::MetadataChecksumMismatch), "byte {i}");
    }
}

#[test]
fn wrong_size_or_version_is_a_parse_error() {
    let bytes = sample().to_bytes();
    assert_eq!(TimelineMetadata::from_bytes(&bytes[..511]), Err(TenantError::MetadataParse));
    let mut b = bytes.clone();
    b[6] = 3;
    let crc = crc32c::crc32c(&b[4..]);
    b[0..4].copy_from_slice(&crc.to_le_bytes());
    assert_eq!(TimelineMetadata::from_bytes(&b), Err(TenantError::MetadataParse));
}

#[test]
fn lsn_arithmetic() {
    assert_eq!(Lsn(0x1001).align(), Lsn(0x1008));
    assert_eq!(Lsn(0x1008).align(), Lsn(0x1008));
    assert_eq!(Lsn(0).align(), Lsn(0));
    assert_eq!(Lsn(0x50).checked_sub(0x10), Some(Lsn(0x40)));
    assert_eq!(Lsn(0x5).checked_sub(0x10), None);
    assert_eq!(Lsn(0x5).saturating_sub(0x10), Lsn(0));
    assert_eq!(Lsn(0x50).saturating_sub(0x10), Lsn(0x40));
    assert_eq!(Lsn::min(Lsn(3), Lsn(2)), Lsn(2));
    assert!(!Lsn(0).is_valid());
    assert!(Lsn(1).is_valid());
}

#[test]
fn ids_and_keys_from_bytes() {
    let id = TimelineId::from_array([0x11, 0x22, 0x33, 0x44, 0x55, 0x66, 0x77, 0x88, 0x11, 0x22, 0x33, 0x44, 0x55, 0x66, 0x77, 0x88]);
    assert_eq!(id, TimelineId(0x11223344556677881122334455667788));
    let k = Key::from_array([0x11, 0x22, 0x22, 0x22, 0x22, 0x33, 0x33, 0x33, 0x33, 0x44, 0x44, 0x44, 0x44, 0x55, 0, 0, 0, 1]);
    assert_eq!(
        k,
        Key { field1: 0x11, field2: 0x22222222, field3: 0x33333333, field4: 0x44444444, field5: 0x55, field6: 1 }
    );
}

#[test]
fn timeline_id_text_form() {
    let id = TimelineId(0x11223344556677881122334455667788);
    assert_eq!(id.to_hex(), b"11223344556677881122334455667788".to_vec());
    assert_eq!(TimelineId(0xab).to_hex(), b"000000000000000000000000000000ab".to_vec());
    assert_eq!(TimelineId::from_hex(&id.to_hex()), Some(id));
    assert_eq!(TimelineId::from_hex(b"AA223344556677881122334455667788"), Some(TimelineId(0xAA223344556677881122334455667788)));
    assert_eq!(TimelineId::from_hex(b"1122"), None);
    assert_eq!(TimelineId::from_hex(b"1122334455667788112233445566778g"), None);
}
