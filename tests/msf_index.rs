use imageparse::msf_index::{MsfIndex, MsfOperation, MsfOverflow, MsfParseError};

#[test]
fn msf_index_msf_index_range() {
    assert_eq!(MsfIndex::new(0, 0, 0).unwrap().to_raw_values(), (0, 0, 0));
    assert_eq!(MsfIndex::new(13, 37, 42).unwrap().to_raw_values(), (13, 37, 42));
    assert_eq!(MsfIndex::new(99, 59, 74).unwrap().to_raw_values(), (99, 59, 74));

    assert_eq!(MsfIndex::new(99, 59, 75), Err(MsfParseError::OutOfRangeError));
    assert_eq!(MsfIndex::new(99, 60, 74), Err(MsfParseError::OutOfRangeError));
    assert_eq!(MsfIndex::new(100, 59, 74), Err(MsfParseError::OutOfRangeError));
}

#[test]
fn msf_add() {
    let msf_0 = MsfIndex::new(0, 0, 0).unwrap();
    let msf_0_0_1 = MsfIndex::new(0, 0, 1).unwrap();
    let msf_13_37_42 = MsfIndex::new(13, 37, 42).unwrap();
    let msf_max_f = MsfIndex::new(0, 0, 74).unwrap();
    let msf_max_sf = MsfIndex::new(0, 59, 74).unwrap();
    let msf_max_msf = MsfIndex::new(99, 59, 74).unwrap();

    assert_eq!((msf_0 + msf_0_0_1).unwrap(), msf_0_0_1);
    assert_eq!((msf_13_37_42 + msf_0_0_1).unwrap().to_raw_values(), (13, 37, 43));
    assert_eq!((msf_max_f + msf_0_0_1).unwrap().to_raw_values(), (0, 1, 0));
    assert_eq!((msf_max_sf + msf_0_0_1).unwrap().to_raw_values(), (1, 0, 0));
    assert!((msf_max_msf + msf_0_0_1).is_err());
}

#[test]
fn msf_sub() {
    let a = MsfIndex::new(1, 0, 0).unwrap();
    let b = MsfIndex::new(0, 0, 1).unwrap();
    assert_eq!((a - b).unwrap().to_raw_values(), (0, 59, 74));
    assert_eq!(b - a, Err(MsfOverflow(MsfOperation::Sub, b, a)));
}

#[test]
fn msf_next_and_sectors() {
    let a = MsfIndex::new(0, 1, 74).unwrap();
    assert_eq!(a.next().unwrap().to_raw_values(), (0, 2, 0));
    assert_eq!(a.to_sectors(), 149);
    assert_eq!(a.to_offset(), 149 * 2352);
    assert_eq!(MsfIndex::from_sectors(150).unwrap().to_raw_values(), (0, 2, 0));
    assert_eq!(MsfIndex::from_sectors(450000), Err(MsfParseError::OutOfRangeError));
    assert!(MsfIndex::new(99, 59, 74).unwrap().next().is_err());
}

#[test]
fn msf_legacy_parsing() {
    assert_eq!(MsfIndex::try_from_str("13:37:42"), MsfIndex::new(13, 37, 42));
    assert_eq!(MsfIndex::try_from_str("1:2"), Err(MsfParseError::InvalidMsfError));
    assert_eq!(MsfIndex::try_from_str("x:2:3"), Err(MsfParseError::ParseIntError));
    assert_eq!(MsfIndex::from_bcd_values(0x12, 0x34, 0x56), MsfIndex::new(12, 34, 56));
    assert_eq!(MsfIndex::new(12, 34, 56).unwrap().to_bcd_values(), (0x12, 0x34, 0x56));
}
