use chd::metadata::Metadata;
use imageparse::chd_image::{parent_action, ChdImage, ChdImageError, ParentStep};
use imageparse::index::MsfIndex;
use imageparse::track_metadata::{cd_tracks, CdTrackInfo};
use imageparse::{Event, ImageError, TrackType};

fn entry(tag: u32, text: &[u8]) -> Metadata {
    Metadata { metatag: tag, value: text.to_vec(), flags: 0, index: 0, length: text.len() as u32 }
}

const CHTR: u32 = 0x4348_5452;
const CHT2: u32 = 0x4348_5432;
const HUNK: u32 = 2448 * 8;

fn hunk_bytes() -> Vec<u8> {
    (0..HUNK).map(|i| (i % 251) as u8).collect()
}

#[test]
fn audio_sector_is_byte_swapped() {
    let meta = vec![entry(CHTR, b"TRACK:1 TYPE:AUDIO SUBTYPE:NONE FRAMES:300\0")];
    let img = ChdImage::from_parts(38, HUNK, hunk_bytes(), &meta, None).unwrap();
    assert_eq!(img.num_tracks(), 1);
    assert_eq!(img.first_track_type(), TrackType::Audio);
    assert_eq!(img.needed_hunk(), None);
    let mut buf = vec![0u8; 2352];
    img.copy_current_sector(&mut buf).unwrap();
    let h = hunk_bytes();
    for i in (0..2352).step_by(2) {
        assert_eq!(buf[i], h[i + 1]);
        assert_eq!(buf[i + 1], h[i]);
    }
}

#[test]
fn data_sector_and_hunk_switch() {
    let meta = vec![entry(CHTR, b"TRACK:1 TYPE:MODE1_RAW SUBTYPE:NONE FRAMES:300\0")];
    let mut img = ChdImage::from_parts(38, HUNK, hunk_bytes(), &meta, None).unwrap();
    img.set_location(MsfIndex::from_lba(151).unwrap()).unwrap();
    let mut buf = vec![0u8; 2352];
    img.copy_current_sector(&mut buf).unwrap();
    assert_eq!(&buf[..], &hunk_bytes()[2448..2448 + 2352]);
    img.set_location(MsfIndex::from_lba(150 + 8).unwrap()).unwrap();
    assert_eq!(img.needed_hunk(), Some(1));
    assert!(matches!(img.copy_current_sector(&mut buf), Err(ImageError::ChdError(ChdImageError::HunkRecvError))));
    assert!(!img.install_hunk(2, vec![7u8; HUNK as usize]));
    assert!(img.install_hunk(1, vec![7u8; HUNK as usize]));
    img.copy_current_sector(&mut buf).unwrap();
    assert_eq!(buf, vec![7u8; 2352]);
    let mut short = vec![0u8; 10];
    assert!(matches!(img.copy_current_sector(&mut short), Err(ImageError::ChdError(ChdImageError::WrongBufferSize))));
    img.set_location(MsfIndex::from_lba(100).unwrap()).unwrap();
    img.copy_current_sector(&mut buf).unwrap();
    assert_eq!(buf, vec![0u8; 2352]);
}

#[test]
fn tracks_are_padded_to_four_sectors() {
    let meta = vec![
        entry(CHT2, b"TRACK:1 TYPE:MODE1_RAW SUBTYPE:NONE FRAMES:301 PREGAP:0 PGTYPE:MODE1 PGSUB:RW POSTGAP:0\0"),
        entry(0x1234_5678, b"other"),
        entry(CHT2, b"TRACK:2 TYPE:AUDIO SUBTYPE:NONE FRAMES:300 PREGAP:150 PGTYPE:VAUDIO PGSUB:RW POSTGAP:0\0"),
    ];
    let mut img = ChdImage::from_parts(100, HUNK, hunk_bytes(), &meta, None).unwrap();
    assert_eq!(img.num_tracks(), 2);
    assert_eq!(img.track_start(1).unwrap().to_lba(), 150);
    assert_eq!(img.track_start(2).unwrap().to_lba(), 150 + 301 + 150);
    assert_eq!(img.track_start(0).unwrap().to_lba(), 150 + 800);
    assert!(matches!(img.track_start(3), Err(ImageError::OutOfRange)));
    img.set_location(MsfIndex::from_lba(150 + 300).unwrap()).unwrap();
    assert_eq!(img.current_track().unwrap(), 1);
    assert_eq!(img.advance_position().unwrap(), Some(Event::TrackChange));
    assert_eq!(img.current_track().unwrap(), 2);
    assert_eq!(img.current_track_type().unwrap(), TrackType::Audio);
    // file position: 451 + 3 padding - 150 = 304, hunk 38
    assert_eq!(img.needed_hunk(), Some(38));
    assert_eq!(img.current_index().unwrap(), 0);
    assert_eq!(img.current_track_local_msf().unwrap().to_lba(), 450000 - 150);
    img.set_location(MsfIndex::from_lba(150 + 301 + 299).unwrap()).unwrap();
    assert_eq!(img.advance_position().unwrap(), Some(Event::EndOfDisc));
}

#[test]
fn chd_open_errors() {
    let meta = vec![entry(CHTR, b"TRACK:1 TYPE:AUDIO SUBTYPE:NONE FRAMES:300\0")];
    assert!(matches!(ChdImage::from_parts(1, 2448 * 8 + 1, vec![0u8; 2448 * 8 + 1], &meta, None), Err(ChdImageError::WrongHunkSize)));
    assert!(matches!(ChdImage::from_parts(1, HUNK, hunk_bytes(), &[], None), Err(ChdImageError::NoTracks)));
    let bad = vec![entry(CHTR, b"TRACK:1 TYPE:AUDIO SUBTYPE:NONE\0")];
    assert!(matches!(ChdImage::from_parts(1, HUNK, hunk_bytes(), &bad, None), Err(ChdImageError::TrackParseError(_))));
    let cooked = vec![entry(CHTR, b"TRACK:1 TYPE:MODE1 SUBTYPE:NONE FRAMES:300\0")];
    match ChdImage::from_parts(1, HUNK, hunk_bytes(), &cooked, None) {
        Err(ChdImageError::UnsupportedSectorFormat(s)) => assert_eq!(s, b"MODE1".to_vec()),
        _ => panic!("expected an unsupported format"),
    }
}

#[test]
fn track_records() {
    let t = CdTrackInfo::from_v1_metadata(b"TRACK:3 TYPE:MODE2_RAW SUBTYPE:RW FRAMES:1234\0").unwrap();
    assert_eq!(t.track_no, 3);
    assert_eq!(t.track_type, b"MODE2_RAW".to_vec());
    assert_eq!(t.sub_type, b"RW".to_vec());
    assert_eq!(t.frames, 1234);
    assert_eq!(t.pregap, None);
    assert!(CdTrackInfo::from_v1_metadata(b"TRACK:3 TYPE:MODE2_RAW SUBTYPE:RW FRAMES:1234").is_err());
    assert!(CdTrackInfo::from_v1_metadata(b"TRACK:300 TYPE:MODE2_RAW SUBTYPE:RW FRAMES:1\0").is_err());
    let v2 = CdTrackInfo::from_v2_metadata(b"TRACK:1 TYPE:AUDIO SUBTYPE:NONE FRAMES:10 PREGAP:150 PGTYPE:VAUDIO PGSUB:RW POSTGAP:2\0").unwrap();
    assert_eq!(v2.pregap, Some(150));
    assert_eq!(v2.pgtype, Some(b"VAUDIO".to_vec()));
    assert_eq!(v2.pgsub, Some(b"RW".to_vec()));
    assert_eq!(v2.postgap, Some(2));
    let all = cd_tracks(&[entry(1, b"x"), entry(CHTR, b"TRACK:1 TYPE:AUDIO SUBTYPE:NONE FRAMES:5\0")]).unwrap();
    assert_eq!(all.len(), 1);
    assert!(cd_tracks(&[entry(CHT2, b"TRACK:1 TYPE:AUDIO SUBTYPE:NONE FRAMES:5\0")]).is_err());
}

#[test]
fn parent_selection() {
    let p = [7u8; 20];
    let other = [1u8; 20];
    assert_eq!(parent_action(0, true, Some(p), &vec![Some(other), None, Some(p)]).unwrap(), ParentStep::OpenWith(2));
    assert!(matches!(parent_action(0, true, Some(p), &vec![Some(other)]), Err(ChdImageError::ParentNotFound)));
    assert!(matches!(parent_action(10, true, Some(p), &vec![Some(p)]), Err(ChdImageError::RecursionDepthExceeded)));
    assert!(matches!(parent_action(0, true, None, &vec![Some(p)]), Err(ChdImageError::UnsupportedChdVersion)));
    assert_eq!(parent_action(3, false, None, &vec![]).unwrap(), ParentStep::OpenAlone);
}

#[test]
fn index_one_starts_at_pregap_end() {
    let meta = vec![
        entry(CHTR, b"TRACK:1 TYPE:MODE1_RAW SUBTYPE:NONE FRAMES:300\0"),
        entry(CHTR, b"TRACK:2 TYPE:AUDIO SUBTYPE:NONE FRAMES:300\0"),
        entry(CHT2, b"TRACK:3 TYPE:AUDIO SUBTYPE:NONE FRAMES:300 PREGAP:150 PGTYPE:VAUDIO PGSUB:RW POSTGAP:0\0"),
    ];
    let mut img = ChdImage::from_parts(200, HUNK, hunk_bytes(), &meta, None).unwrap();
    // No pregap in the metadata: 150 sectors for the first track, none for the others.
    assert_eq!(img.track_start(1).unwrap().to_lba(), 150 + 150);
    assert_eq!(img.track_start(2).unwrap().to_lba(), 450);
    assert_eq!(img.track_start(3).unwrap().to_lba(), 750 + 150);
    img.set_location(MsfIndex::from_lba(899).unwrap()).unwrap();
    assert_eq!(img.current_index().unwrap(), 0);
    img.set_location(MsfIndex::from_lba(900).unwrap()).unwrap();
    assert_eq!(img.current_index().unwrap(), 1);
    img.set_location(MsfIndex::from_lba(450).unwrap()).unwrap();
    assert_eq!(img.current_index().unwrap(), 1);
    assert_eq!(img.current_track().unwrap(), 2);
    img.set_location_to_track(3).unwrap();
    assert_eq!(img.current_global_msf().unwrap().to_lba(), 900);
    assert!(matches!(img.set_location_to_track(4), Err(ImageError::OutOfRange)));
}

#[test]
fn subchannel_list_survives_positioning() {
    let meta = vec![entry(CHTR, b"TRACK:1 TYPE:MODE1_RAW SUBTYPE:NONE FRAMES:300\0")];
    let set: std::collections::BTreeSet<u32> = [150u32].into_iter().collect();
    let mut img = ChdImage::from_parts(38, HUNK, hunk_bytes(), &meta, Some(set)).unwrap();
    img.set_location(MsfIndex::from_lba(150).unwrap()).unwrap();
    assert!(!img.current_subchannel_q_valid());
    img.advance_position().unwrap();
    assert!(img.current_subchannel_q_valid());
    let mut short = vec![0u8; 2351];
    assert!(matches!(img.copy_current_sector(&mut short), Err(ImageError::ChdError(ChdImageError::WrongBufferSize))));
}
