use imageparse::index::{MsfIndex, MsfIndexError};
use imageparse::{image_format, ImageFormat};

#[test]
fn index_msf_index_range() {
    assert_eq!(MsfIndex::new(0, 0, 0).unwrap().to_raw_values(), (0, 0, 0));
    assert_eq!(MsfIndex::new(13, 37, 42).unwrap().to_raw_values(), (13, 37, 42));
    assert_eq!(MsfIndex::new(99, 59, 74).unwrap().to_raw_values(), (99, 59, 74));

    assert_eq!(MsfIndex::new(99, 59, 75), Err(MsfIndexError::OutOfRangeError));
    assert_eq!(MsfIndex::new(99, 60, 74), Err(MsfIndexError::OutOfRangeError));
    assert_eq!(MsfIndex::new(100, 59, 74), Err(MsfIndexError::OutOfRangeError));
}

#[test]
fn parse_text_time_codes() {
    assert_eq!(MsfIndex::try_from_str("13:37:42"), MsfIndex::new(13, 37, 42));
    assert_eq!(MsfIndex::try_from_str("00:60:00"), Err(MsfIndexError::OutOfRangeError));
    assert_eq!(MsfIndex::try_from_str("10:10"), Err(MsfIndexError::InvalidMsfError));
}

#[test]
fn parse_tolerates_surrounding_whitespace() {
    assert_eq!(MsfIndex::try_from_str("  01:02:03 \t"), MsfIndex::new(1, 2, 3));
    assert_eq!(MsfIndex::try_from_str("+01:02:03"), MsfIndex::new(1, 2, 3));
}

#[test]
fn parse_rejects_bad_fields() {
    assert_eq!(MsfIndex::try_from_str("aa:00:00"), Err(MsfIndexError::ParseIntError));
    assert_eq!(MsfIndex::try_from_str("00::00"), Err(MsfIndexError::ParseIntError));
    assert_eq!(MsfIndex::try_from_str("256:00:00"), Err(MsfIndexError::ParseIntError));
    assert_eq!(MsfIndex::try_from_str("1:2:3:4"), Err(MsfIndexError::InvalidMsfError));
    assert_eq!(MsfIndex::try_from_str(""), Err(MsfIndexError::InvalidMsfError));
}

#[test]
fn bcd_time_codes() {
    assert_eq!(MsfIndex::from_bcd_values(0x99, 0x59, 0x74), MsfIndex::new(99, 59, 74));
    assert_eq!(MsfIndex::from_bcd_values(0xA0, 0, 0), Err(MsfIndexError::OutOfRangeError));
    assert_eq!(MsfIndex::from_bcd_values(0x0A, 0, 0), Err(MsfIndexError::OutOfRangeError));
    assert_eq!(MsfIndex::from_bcd_values(0x00, 0x60, 0), Err(MsfIndexError::OutOfRangeError));
}

#[test]
fn bcd_round_trip() {
    for b in [(0x00u8, 0x02u8, 0x00u8), (0x12, 0x34, 0x56), (0x99, 0x59, 0x74)] {
        let m = MsfIndex::from_bcd_values(b.0, b.1, b.2).unwrap();
        assert_eq!(m.to_bcd_values(), b);
    }
    assert_eq!(MsfIndex::new(13, 37, 42).unwrap().to_bcd_values(), (0x13, 0x37, 0x42));
}

#[test]
fn lba_conversions() {
    assert_eq!(MsfIndex::new(0, 2, 0).unwrap().to_lba(), 150);
    assert_eq!(MsfIndex::new(99, 59, 74).unwrap().to_lba(), 449999);
    assert_eq!(MsfIndex::from_lba(150), MsfIndex::new(0, 2, 0));
    assert_eq!(MsfIndex::from_lba(449999), MsfIndex::new(99, 59, 74));
    assert_eq!(MsfIndex::from_lba(450000), Err(MsfIndexError::OutOfRangeError));
    assert_eq!(MsfIndex::from_lba(4500 + 75 + 1), MsfIndex::new(1, 1, 1));
}

#[test]
fn lba_round_trip() {
    for (m, s, f) in [(0u8, 0u8, 0u8), (13, 37, 42), (99, 59, 74), (50, 0, 74)] {
        let x = MsfIndex::new(m, s, f).unwrap();
        assert!(x.to_lba() < 450000);
        assert_eq!(MsfIndex::from_lba(x.to_lba()), Ok(x));
    }
}

#[test]
fn ordering_follows_lba() {
    let a = MsfIndex::new(0, 59, 74).unwrap();
    let b = MsfIndex::new(1, 0, 0).unwrap();
    assert!(a < b);
}

#[test]
fn unicode_white_space_is_trimmed() {
    assert_eq!(MsfIndex::try_from_str("\u{A0}13:37:42\u{3000}"), MsfIndex::new(13, 37, 42));
    assert_eq!(MsfIndex::try_from_str("\u{2009}13:37:42\u{85}"), MsfIndex::new(13, 37, 42));
    assert_eq!(MsfIndex::try_from_str("13\u{A0}:37:42"), Err(MsfIndexError::ParseIntError));
    assert_eq!(MsfIndex::try_from_str("\r\n13:37:42\x0b"), MsfIndex::new(13, 37, 42));
}

#[test]
fn image_format_by_magic_or_extension() {
    assert_eq!(image_format(b"MComprHD", Some(&b"cue"[..])), Some(ImageFormat::Chd));
    assert_eq!(image_format(b"FILE \"a\"", Some(&b"CuE"[..])), Some(ImageFormat::Cue));
    assert_eq!(image_format(b"FILE \"a\"", Some(&b"bin"[..])), None);
    assert_eq!(image_format(b"FILE \"a\"", None), None);
}
