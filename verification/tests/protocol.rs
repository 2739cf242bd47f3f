//! Composite ids, version checks and the wire encoding.

use ringboard::error::IdNotFoundError;
use ringboard::protocol::{composite_id, decompose_id, RingKind, VERSION};
use ringboard::requests::{
    check_add_reply, u64_from_le_bytes, u64_to_le_bytes, validate_version,
};

#[test]
fn compose_then_decompose_main() {
    let id = composite_id(RingKind::Main, 5);
    assert_eq!(id, 5);
    assert_eq!(decompose_id(id), Ok((RingKind::Main, 5)));
}

#[test]
fn compose_then_decompose_favorites() {
    let id = composite_id(RingKind::Favorites, 7);
    assert_eq!(id, (1u64 << 32) | 7);
    assert_eq!(decompose_id(id), Ok((RingKind::Favorites, 7)));
}

#[test]
fn decompose_unknown_ring() {
    let id = 2u64 << 32;
    assert_eq!(decompose_id(id), Err(IdNotFoundError::Ring(2)));
    assert_eq!(decompose_id(u64::MAX), Err(IdNotFoundError::Ring(u32::MAX)));
}

#[test]
fn version_check() {
    assert!(validate_version(VERSION, VERSION).is_ok());
    let err = validate_version(VERSION, 0xFF).unwrap_err();
    assert!(matches!(
        err,
        ringboard::error::ClientError::VersionMismatch { actual: 0xFF }
    ));
}

#[test]
fn le_roundtrip() {
    for v in [0u64, 1, 0xFF, 0x1_0000_0000, u64::MAX, 0x0123_4567_89AB_CDEF] {
        let bytes = u64_to_le_bytes(v);
        assert_eq!(bytes.len(), 8);
        assert_eq!(u64_from_le_bytes(&bytes), v);
    }
    assert_eq!(u64_to_le_bytes(0x0102_0304_0506_0708)[0], 8);
}

#[test]
fn add_reply_shape() {
    let good = u64_to_le_bytes(42);
    assert_eq!(check_add_reply(&good).unwrap(), 42);
    let short = vec![1, 2, 3];
    assert!(matches!(
        check_add_reply(&short),
        Err(ringboard::error::ClientError::InvalidResponse { .. })
    ));
}
