use crdt_enc::utils::version_bytes::{VersionBytes, VersionBytesRef};

const V1: u128 = 0xaadfd5a6_6e19_4b24_a802_4fa27c72f20c;
const V2: u128 = 0xe834d789_101b_4634_9823_9de990a9051f;
const V3: u128 = 0xc7f269be_0ff5_4a77_99c3_7c23c96d5cb4;

#[test]
fn serialize_parse_round_trip() {
    let vb = VersionBytes::new(V1, vec![7, 8, 9, 10]);
    let bytes = vb.serialize();
    assert_eq!(bytes.len(), 16 + 4);
    let back = VersionBytes::deserialize(&bytes).unwrap();
    assert_eq!(back.version(), V1);
    assert_eq!(back.as_ref(), &[7, 8, 9, 10]);
}

#[test]
fn serialize_parse_round_trip_empty() {
    let vb = VersionBytes::new(V2, Vec::new());
    let bytes = vb.serialize();
    assert_eq!(bytes.len(), 16);
    let back = VersionBytes::deserialize(&bytes).unwrap();
    assert_eq!(back.version(), V2);
    assert_eq!(back.as_ref(), &[] as &[u8]);
}

#[test]
fn deserialize_short_buffer_fails() {
    let r = VersionBytes::deserialize(&[0u8; 15]);
    assert!(r.is_err());
    let r = VersionBytesRef::deserialize(&[0u8; 3]);
    assert!(r.is_err());
}

#[test]
fn ensure_version_exact() {
    let vb = VersionBytes::new(V1, vec![1]);
    assert!(vb.ensure_version(V1).is_ok());
    let err = vb.ensure_version(V2).unwrap_err();
    assert_eq!(err.got, V1);
    assert_eq!(err.expected, vec![V2]);
}

#[test]
fn ensure_versions_is_membership() {
    // sorted ascending
    let mut sorted = vec![V1, V2, V3];
    sorted.sort_unstable();
    let inside = VersionBytes::new(V2, vec![]);
    assert!(inside.ensure_versions(&sorted).is_ok());
    let outside = VersionBytes::new(0x1234, vec![]);
    let err = outside.ensure_versions(&sorted).unwrap_err();
    assert_eq!(err.got, 0x1234);
    assert_eq!(err.expected, sorted);
    // every member is accepted
    for v in &sorted {
        let vb = VersionBytes::new(*v, vec![]);
        assert!(vb.ensure_versions(&sorted).is_ok());
    }
    // empty set rejects everything
    let none: Vec<u128> = Vec::new();
    assert!(inside.ensure_versions(&none).is_err());
}

#[test]
fn buf_yields_serialized_bytes() {
    let vb = VersionBytes::new(V3, vec![42, 43]);
    let expected = vb.serialize();
    let mut buf = vb.buf();
    let mut collected: Vec<u8> = Vec::new();
    while buf.has_remaining() {
        let chunk = buf.chunk().to_vec();
        collected.extend_from_slice(&chunk);
        buf.advance(chunk.len());
    }
    assert_eq!(collected, expected);
}

#[test]
fn borrowing_view_agrees() {
    let vb = VersionBytes::new(V1, vec![5, 6]);
    let r = vb.as_version_bytes_ref();
    assert_eq!(r.version(), V1);
    assert_eq!(r.as_ref(), &[5, 6]);
    assert_eq!(r.serialize(), vb.serialize());
}

#[test]
fn content_names_are_digests() {
    let a = VersionBytes::new(V1, vec![1, 2, 3]);
    let b = VersionBytes::new(V1, vec![1, 2, 4]);
    let name_a = crdt_enc::storage::content_name(&a);
    let name_b = crdt_enc::storage::content_name(&b);
    // base32-nopad of a 32-byte digest
    assert_eq!(name_a.len(), 52);
    assert_ne!(name_a, name_b);
    // the same content always gets the same name
    let again = VersionBytes::new(V1, vec![1, 2, 3]);
    assert_eq!(crdt_enc::storage::content_name(&again), name_a);
}
