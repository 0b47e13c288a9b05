//! Random access to the sectors of CD-ROM images described by cue sheets or
//! stored in compressed CHD containers.
pub mod text;
pub mod index;
pub mod msf_index;
pub mod cue;
pub mod sbi;
pub mod track_metadata;
pub mod chd_image;
pub mod hunk_cache;

pub use index::{MsfIndex, MsfIndexError};

use vstd::prelude::*;

verus! {

/// Kind of data a track holds; every raw sector is 2352 bytes long.
#[derive(Clone, Copy, Debug, PartialEq, Eq, Structural)]
pub enum TrackType {
    /// 2352 bytes of user data.
    Audio,
    /// 2048 bytes of user data.
    Mode1,
    /// 2336 bytes of user data.
    Mode2,
}

#[derive(Debug)]
pub enum ImageError {
    UnsupportedFormat,
    CueError(cue::CueError),
    ChdError(chd_image::ChdImageError),
    MsfIndexError(MsfIndexError),
    IoError(std::io::Error),
    OutOfRange,
}

/// A disc image: tracks numbered from 1 and a current sector position.
/// Track 0 stands for the whole disc where a track number is asked for.
pub trait Image {
    fn num_tracks(&self) -> usize;

    fn current_subchannel_q_valid(&self) -> bool;

    fn current_track(&self) -> Result<u8, ImageError>;

    fn current_index(&self) -> Result<u8, ImageError>;

    fn current_track_local_msf(&self) -> Result<MsfIndex, ImageError>;

    fn current_global_msf(&self) -> Result<MsfIndex, ImageError>;

    fn current_track_type(&self) -> Result<TrackType, ImageError>;

    fn first_track_type(&self) -> TrackType;

    fn track_start(&self, track: u8) -> Result<MsfIndex, ImageError>;

    fn set_location(&mut self, target: MsfIndex) -> Result<(), ImageError>;

    fn set_location_to_track(&mut self, track: u8) -> Result<(), ImageError>;

    fn advance_position(&mut self) -> Result<Option<Event>, ImageError>;

    /// A hint that the sector at `location` will be read soon.
    fn advise_prefetch(&mut self, location: MsfIndex) {
    }

    /// Copies the current sector into `buf`, which is 2352 bytes long.
    fn copy_current_sector(&mut self, buf: &mut [u8]) -> Result<(), ImageError>;
}

/// The kinds of image file that can be opened.
#[derive(Clone, Copy, Debug, PartialEq, Eq, Structural)]
pub enum ImageFormat {
    Chd,
    Cue,
}

/// The first bytes of a CHD file: `MComprHD`.
pub open spec fn chd_magic() -> Seq<u8> {
    seq![77u8, 67, 111, 109, 112, 114, 72, 68]
}

/// Which kind of image a file is: a CHD file by its first eight bytes, else a
/// cue sheet by its extension `cue` in any case.
pub open spec fn format_of(magic: Seq<u8>, extension: Option<Seq<u8>>) -> Option<ImageFormat> {
    if magic == chd_magic() {
        Some(ImageFormat::Chd)
    } else if extension matches Some(e) && text::upper_seq(e) == seq![67u8, 85, 69] {
        Some(ImageFormat::Cue)
    } else {
        None
    }
}

/// Decides the kind of an image from its first eight bytes and the
/// extension of its name.
pub fn image_format(magic: &[u8], extension: Option<&[u8]>) -> (r: Option<ImageFormat>)
    ensures
        r == format_of(
            magic@,
            match extension {
                Some(e) => Some(e@),
                None => None,
            },
        ),
{
    let m = vec![77u8, 67, 111, 109, 112, 114, 72, 68];
    assert(m@ =~= chd_magic());
    if text::bytes_eq(magic, m.as_slice()) {
        return Some(ImageFormat::Chd);
    }
    match extension {
        Some(e) => {
            assert(e@.subrange(0, e@.len() as int) =~= e@);
            let u = text::upper_range(e, 0, e.len());
            let cue = vec![67u8, 85, 69];
            if text::bytes_eq(u.as_slice(), cue.as_slice()) {
                Some(ImageFormat::Cue)
            } else {
                None
            }
        },
        None => None,
    }
}

/// What stepping to the next sector ran into.
#[derive(Clone, Copy, Debug, PartialEq, Eq, Structural)]
pub enum Event {
    TrackChange,
    EndOfDisc,
}

} // verus!
