use imageparse::sbi::{parse_sbi, SbiParseError};
use imageparse::MsfIndexError;

#[test]
fn sbi_records_of_each_mode() {
    let mut data = b"SBI\0".to_vec();
    data.extend_from_slice(&[0x00, 0x02, 0x00, 0x01]);
    data.extend_from_slice(&[0u8; 10]);
    data.extend_from_slice(&[0x00, 0x02, 0x05, 0x02, 1, 2, 3]);
    data.extend_from_slice(&[0x01, 0x00, 0x00, 0x03, 1, 2, 3]);
    data.extend_from_slice(&[0x02, 0x00]);
    let set = parse_sbi(&data).unwrap();
    assert_eq!(set.into_iter().collect::<Vec<u32>>(), vec![150, 155, 4500]);
}

#[test]
fn sbi_errors() {
    assert!(matches!(parse_sbi(b"SBI"), Err(SbiParseError::NotAnSbiFile)));
    assert!(matches!(parse_sbi(b"SBJ\0"), Err(SbiParseError::NotAnSbiFile)));
    assert!(matches!(parse_sbi(b"SBI\0\x00\x02\x00\x07"), Err(SbiParseError::InvalidMode)));
    assert!(matches!(parse_sbi(b"SBI\0\x00\x02\x00\x00"), Err(SbiParseError::InvalidMode)));
    assert!(matches!(
        parse_sbi(b"SBI\0\xA0\x02\x00\x01"),
        Err(SbiParseError::MsfParseError(MsfIndexError::OutOfRangeError))
    ));
    assert_eq!(parse_sbi(b"SBI\0").unwrap().len(), 0);
}
