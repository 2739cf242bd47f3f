//! Decimal names: direct-store file names and the server lock file.

use ringboard::error::{CliError, Error};
use ringboard::names::{
    direct_file_name, parse_direct_file_name, parse_lock_file, parse_u32_decimal,
    u32_to_decimal,
};
use ringboard::protocol::RingKind;

#[test]
fn decimal_rendering() {
    assert_eq!(u32_to_decimal(0), b"0".to_vec());
    assert_eq!(u32_to_decimal(7), b"7".to_vec());
    assert_eq!(u32_to_decimal(250_000), b"250000".to_vec());
    assert_eq!(u32_to_decimal(u32::MAX), b"4294967295".to_vec());
}

#[test]
fn decimal_parsing() {
    assert_eq!(parse_u32_decimal(&b"0".to_vec()), Some(0));
    assert_eq!(parse_u32_decimal(&b"123".to_vec()), Some(123));
    assert_eq!(parse_u32_decimal(&b"4294967295".to_vec()), Some(u32::MAX));
    assert_eq!(parse_u32_decimal(&b"4294967296".to_vec()), None);
    assert_eq!(parse_u32_decimal(&b"".to_vec()), None);
    assert_eq!(parse_u32_decimal(&b"12a".to_vec()), None);
}

#[test]
fn direct_names_round_trip() {
    let name = direct_file_name(RingKind::Main, 5);
    assert_eq!(name, b"0_5".to_vec());
    assert_eq!(parse_direct_file_name(&name).unwrap(), (0, 5));
    let name = direct_file_name(RingKind::Favorites, 123456);
    assert_eq!(name, b"1_123456".to_vec());
    assert_eq!(parse_direct_file_name(&name).unwrap(), (1, 123456));
}

#[test]
fn foreign_names_are_rejected() {
    for bad in [&b"abc"[..], b"12", b"_5", b"5_", b"1_2_3", b"", b"1_x"] {
        let r = parse_direct_file_name(&bad.to_vec());
        assert!(matches!(r, Err(Error::NotARingboard { .. })), "{bad:?}");
    }
}

#[test]
fn lock_file_states() {
    assert!(matches!(
        parse_lock_file(&Vec::new()),
        Err(CliError::UncleanShutdown)
    ));
    assert_eq!(parse_lock_file(&b"4242".to_vec()).unwrap(), 4242);
    assert!(matches!(
        parse_lock_file(&b"pid 12".to_vec()),
        Err(CliError::Core(Error::InvalidPid { .. }))
    ));
}
