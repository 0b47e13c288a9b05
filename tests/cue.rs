use imageparse::cue::{parse_cue, BinMode, CueError, Cuesheet};
use imageparse::index::MsfIndex;
use imageparse::sbi::parse_sbi;
use imageparse::{Event, ImageError, TrackType};

fn sheet(text: &str, counts: Vec<u32>) -> Cuesheet {
    let files = parse_cue(text.as_bytes()).unwrap();
    Cuesheet::from_files(files, &counts, None).unwrap()
}

fn parse_err(text: &str) -> CueError {
    match parse_cue(text.as_bytes()) {
        Err(e) => e,
        Ok(_) => panic!("expected an error"),
    }
}

#[test]
fn single_track_sheet() {
    let text = "FILE \"a.bin\" BINARY\nTRACK 01 MODE1/2352\nINDEX 01 00:00:00\n";
    let files = parse_cue(text.as_bytes()).unwrap();
    assert_eq!(files.len(), 1);
    assert_eq!(files[0].name, b"a.bin".to_vec());
    assert_eq!(files[0].bin_mode, BinMode::Binary);
    let mut s = Cuesheet::from_files(files, &vec![150], None).unwrap();
    assert_eq!(s.num_tracks(), 1);
    assert_eq!(s.track_start(1).unwrap(), MsfIndex::new(0, 2, 0).unwrap());
    assert_eq!(s.first_track_type(), TrackType::Mode1);
    s.set_location(MsfIndex::new(0, 2, 0).unwrap()).unwrap();
    assert_eq!(s.sector_offset(), Some((0, 0)));
    assert_eq!(s.current_global_msf().unwrap().to_lba(), 150);
    assert_eq!(s.track_start(0).unwrap().to_lba(), 300);
}

#[test]
fn two_audio_tracks_in_one_file() {
    let text = "FILE \"a.bin\" BINARY\r\n  TRACK 01 AUDIO\r\n    INDEX 01 00:00:00\r\n  TRACK 02 AUDIO\r\n    INDEX 01 00:10:00\r\n";
    let mut s = sheet(text, vec![1500]);
    assert_eq!(s.num_tracks(), 2);
    assert_eq!(s.track_start(2).unwrap().to_lba(), 750 + 150);
    s.set_location(MsfIndex::from_lba(150 + 749).unwrap()).unwrap();
    assert_eq!(s.current_track().unwrap(), 1);
    assert_eq!(s.sector_offset(), Some((0, 749 * 2352)));
    assert_eq!(s.advance_position().unwrap(), Some(Event::TrackChange));
    assert_eq!(s.current_track().unwrap(), 2);
    assert_eq!(s.sector_offset(), Some((0, 750 * 2352)));
    assert_eq!(s.advance_position().unwrap(), None);
}

#[test]
fn pregap_and_end_of_disc() {
    let text = "FILE \"a.bin\" BINARY\nTRACK 01 MODE2/2352\nINDEX 01 00:00:00\n";
    let mut s = sheet(text, vec![2]);
    s.set_location(MsfIndex::from_lba(10).unwrap()).unwrap();
    assert_eq!(s.sector_offset(), None);
    assert_eq!(s.advance_position().unwrap(), None);
    assert_eq!(s.current_global_msf().unwrap().to_lba(), 11);
    s.set_location(MsfIndex::from_lba(151).unwrap()).unwrap();
    assert_eq!(s.advance_position().unwrap(), Some(Event::EndOfDisc));
    assert!(matches!(s.set_location(MsfIndex::from_lba(152).unwrap()), Err(ImageError::OutOfRange)));
    assert_eq!(s.current_track_type().unwrap(), TrackType::Mode2);
}

#[test]
fn two_files_change_track() {
    let text = "FILE \"a.bin\" BINARY\nTRACK 01 MODE1/2352\nINDEX 01 00:00:00\nFILE \"b.bin\" BINARY\nTRACK 02 AUDIO\nINDEX 00 00:00:00\nINDEX 01 00:02:00\n";
    let mut s = sheet(text, vec![10, 300]);
    assert_eq!(s.num_tracks(), 2);
    assert_eq!(s.track_start(2).unwrap().to_lba(), 10 + 150 + 150);
    s.set_location(MsfIndex::from_lba(159).unwrap()).unwrap();
    assert_eq!(s.advance_position().unwrap(), Some(Event::TrackChange));
    assert_eq!(s.sector_offset(), Some((1, 0)));
    assert_eq!(s.current_index().unwrap(), 0);
    assert_eq!(s.current_track_local_msf().unwrap().to_lba(), 450000 - 150);
    s.set_location(MsfIndex::from_lba(160 + 150).unwrap()).unwrap();
    assert_eq!(s.current_index().unwrap(), 1);
    assert_eq!(s.current_track_local_msf().unwrap().to_lba(), 0);
    s.set_location_to_track(2).unwrap();
    assert_eq!(s.current_global_msf().unwrap().to_lba(), 310);
    assert!(matches!(s.track_start(3), Err(ImageError::OutOfRange)));
}

#[test]
fn subchannel_list() {
    let mut data = b"SBI\0".to_vec();
    data.extend_from_slice(&[0x00, 0x02, 0x00, 0x01]);
    data.extend_from_slice(&[0u8; 10]);
    let set = parse_sbi(&data).unwrap();
    let text = "FILE \"a.bin\" BINARY\nTRACK 01 MODE1/2352\nINDEX 01 00:00:00\n";
    let files = parse_cue(text.as_bytes()).unwrap();
    let mut s = Cuesheet::from_files(files, &vec![150], Some(set)).unwrap();
    s.set_location(MsfIndex::new(0, 2, 0).unwrap()).unwrap();
    assert!(!s.current_subchannel_q_valid());
    s.set_location(MsfIndex::from_lba(151).unwrap()).unwrap();
    assert!(s.current_subchannel_q_valid());
    let plain = sheet(text, vec![150]);
    assert!(plain.current_subchannel_q_valid());
}

#[test]
fn cue_errors() {
    assert!(matches!(parse_err(""), CueError::NoBinFiles));
    assert!(matches!(parse_err("FILE \"a.bin\" BINARY\n"), CueError::NoTracks));
    assert!(matches!(parse_err("TRACK 01 AUDIO\n"), CueError::TrackCommandWithoutBinFile));
    assert!(matches!(parse_err("FILE \"a.bin\" BINARY\nINDEX 01 00:00:00\n"), CueError::IndexCommandWithoutTrack));
    assert!(matches!(parse_err("FILE \"a.bin\" BINARY\nTRACK 02 AUDIO\n"), CueError::InvalidTrackNumber));
    assert!(matches!(parse_err("FILE \"a.bin\" BINARY\nTRACK 01\n"), CueError::InvalidTrackLine));
    assert!(matches!(parse_err("FILE \"a.bin\" BINARY\nTRACK xx AUDIO\n"), CueError::ParseIntError));
    assert!(matches!(parse_err("FILE \"a.bin\" BINARY\nTRACK 01 AUDIO\nINDEX 01\n"), CueError::InvalidIndexLine));
    assert!(matches!(parse_err("FILE \"a.bin\" BINARY\nTRACK 01 AUDIO\nINDEX 01 1:2\n"), CueError::MsfParseError(_)));
    assert!(matches!(
        parse_err("FILE \"a.bin\" BINARY\nTRACK 01 AUDIO\nINDEX 00 00:00:00\nINDEX 00 00:00:01\n"),
        CueError::InvalidIndexNumber
    ));
    assert!(matches!(parse_err("FILE a.bin BINARY\n"), CueError::FileNameParseError));
    assert!(matches!(
        parse_err("FILE \"a.bin\" BINARY\nTRACK 01 AUDIO\nINDEX 00 00:00:00\nTRACK 02 AUDIO\nINDEX 01 00:01:00\n"),
        CueError::TrackWithoutIndex01
    ));
    match parse_err("FILE \"a.bin\" BINARY\nTRACK 01 CDG\n") {
        CueError::UnknownTrackType(t) => assert_eq!(t, b"CDG".to_vec()),
        e => panic!("{:?}", e),
    }
    match parse_err("FILE \"a.bin\" binry\n") {
        CueError::UnknownBinMode(t) => assert_eq!(t, b"BINRY".to_vec()),
        e => panic!("{:?}", e),
    }
    match parse_err("file \"a.bin\" BINARY\nfoo bar\n") {
        CueError::InvalidCommandError(t) => assert_eq!(t, b"FOO".to_vec()),
        e => panic!("{:?}", e),
    }
}

#[test]
fn ignored_directives_and_modes() {
    let text = "REM COMMENT x\nCATALOG 0\nPERFORMER \"p\"\nTITLE \"t\"\nFILE \"a b.wav\" WAVE\nTRACK 01 AUDIO\nFLAGS DCP\nISRC X\nPREGAP 00:02:00\nINDEX 01 00:00:00\n";
    let files = parse_cue(text.as_bytes()).unwrap();
    assert_eq!(files[0].name, b"a b.wav".to_vec());
    assert_eq!(files[0].bin_mode, BinMode::Wave);
    assert_eq!(BinMode::try_from_str(" motorola ").unwrap(), BinMode::Motorola);
    assert_eq!(TrackType::try_from_str("mode2/2352").unwrap(), TrackType::Mode2);
}

#[test]
fn index_past_end_of_file() {
    let text = "FILE \"a.bin\" BINARY\nTRACK 01 AUDIO\nINDEX 01 00:01:00\n";
    let files = parse_cue(text.as_bytes()).unwrap();
    assert!(matches!(Cuesheet::from_files(files, &vec![10], None), Err(CueError::InvalidIndexNumber)));
}

#[test]
fn lone_track_with_index_zero_only() {
    let text = "FILE \"a.bin\" BINARY\nTRACK 01 AUDIO\nINDEX 00 00:00:00\n";
    let mut s = sheet(text, vec![100]);
    assert_eq!(s.track_start(1).unwrap().to_lba(), 150);
    s.set_location(MsfIndex::from_lba(150).unwrap()).unwrap();
    assert_eq!(s.current_index().unwrap(), 1);
    assert_eq!(s.current_track_local_msf().unwrap().to_lba(), 0);
    assert!(matches!(parse_err("FILE \"a.bin\" BINARY\nTRACK 01 AUDIO\n"), CueError::TrackWithoutIndex01));
}

#[test]
fn unicode_white_space_between_words() {
    let text = "FILE\u{A0}\"a.bin\"\u{2003}BINARY\nTRACK 01\u{3000}AUDIO\nINDEX 01 00:00:00\n";
    let files = parse_cue(text.as_bytes()).unwrap();
    assert_eq!(files[0].name, b"a.bin".to_vec());
    assert_eq!(files[0].bin_mode, BinMode::Binary);
}
