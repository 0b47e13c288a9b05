//! CD images stored in CHD files: sectors packed into hunks, each sector
//! followed by its 96 subchannel bytes.
use vstd::prelude::*;
use std::collections::BTreeSet;
use chd::metadata::Metadata;
use crate::index::{MsfIndex, MsfIndexError, MSF_LBA_LIMIT};
use crate::cue::{msf_result_ok, FIRST_TRACK_PREGAP};
use crate::track_metadata::{cd_tracks, cd_tracks_of, infos_view, CdTrackInfo, CdTrackView, TrackParseError};
use crate::text::bytes_eq;
use crate::{Event, ImageError, TrackType};

verus! {

#[verifier::external_type_specification]
#[verifier::external_body]
pub struct ExChdError(chd::Error);

/// Bytes a sector takes in a hunk: 2352 of data, 96 of subchannel.
pub const BYTES_PER_SECTOR: u32 = 2448;

/// Bytes of a raw sector.
pub const SECTOR_SIZE: usize = 2352;

#[derive(Debug)]
pub enum ChdImageError {
    ChdError(chd::Error),
    IoError(std::io::Error),
    TrackParseError(TrackParseError),
    WrongHunkSize,
    WrongBufferSize,
    /// The type word of a track that is not a raw CD format.
    UnsupportedSectorFormat(Vec<u8>),
    HunkRecvError,
    NoTracks,
    RecursionDepthExceeded,
    UnsupportedChdVersion,
    ParentNotFound,
}

/// Sector data formats of CHD tracks that can be read.
pub open spec fn sector_format(s: Seq<u8>) -> Option<TrackType> {
    if s == seq![77u8, 79, 68, 69, 49, 95, 82, 65, 87] {
        Some(TrackType::Mode1)
    } else if s == seq![77u8, 79, 68, 69, 50, 95, 82, 65, 87] {
        Some(TrackType::Mode2)
    } else if s == seq![65u8, 85, 68, 73, 79] {
        Some(TrackType::Audio)
    } else {
        None
    }
}

fn sector_format_of(s: &Vec<u8>) -> (r: Option<TrackType>)
    ensures
        r == sector_format(s@),
{
    if bytes_eq(s.as_slice(), vec![77u8, 79, 68, 69, 49, 95, 82, 65, 87].as_slice()) {
        Some(TrackType::Mode1)
    } else if bytes_eq(s.as_slice(), vec![77u8, 79, 68, 69, 50, 95, 82, 65, 87].as_slice()) {
        Some(TrackType::Mode2)
    } else if bytes_eq(s.as_slice(), vec![65u8, 85, 68, 73, 79].as_slice()) {
        Some(TrackType::Audio)
    } else {
        None
    }
}

/// Sectors of padding after a track of `frames` sectors: tracks are padded to
/// a multiple of 4 sectors in the file.
pub open spec fn pad_of(frames: nat) -> nat {
    if frames % 4 == 0 {
        0
    } else {
        (4 - frames % 4) as nat
    }
}

/// A track of a CHD image.
pub struct ChdTrack {
    pub start_lba: u32,
    pub track_type: TrackType,
    /// Padding sectors of the tracks before this one.
    pub padding_offset: u32,
    pub track_info: CdTrackInfo,
}

pub struct ChdTrackView {
    pub start_lba: nat,
    pub track_type: TrackType,
    pub padding_offset: nat,
    pub info: CdTrackView,
}

impl ChdTrack {
    pub open spec fn view(&self) -> ChdTrackView {
        ChdTrackView {
            start_lba: self.start_lba as nat,
            track_type: self.track_type,
            padding_offset: self.padding_offset as nat,
            info: self.track_info.view(),
        }
    }
}

pub open spec fn chd_tracks_view(ts: Seq<ChdTrack>) -> Seq<ChdTrackView> {
    ts.map_values(|t: ChdTrack| t.view())
}

pub enum LayoutFault {
    UnsupportedSectorFormat(Seq<u8>),
    TooLong,
}

/// The tracks laid out one after the other from disc position `lba`, with
/// `pad` padding sectors before them in the file.
pub open spec fn layout_from(infos: Seq<CdTrackView>, k: int, lba: nat, pad: nat) -> Result<
    Seq<ChdTrackView>,
    LayoutFault,
>
    decreases infos.len() - k,
{
    if k < 0 || k >= infos.len() {
        Ok(Seq::empty())
    } else {
        match sector_format(infos[k].track_type) {
            None => Err(LayoutFault::UnsupportedSectorFormat(infos[k].track_type)),
            Some(ty) => {
                let f = infos[k].frames;
                if lba + f + pad + pad_of(f) > u32::MAX {
                    Err(LayoutFault::TooLong)
                } else {
                    match layout_from(infos, k + 1, lba + f, pad + pad_of(f)) {
                        Ok(rest) => Ok(
                            seq![ChdTrackView { start_lba: lba, track_type: ty, padding_offset: pad, info: infos[k] }]
                                + rest,
                        ),
                        Err(e) => Err(e),
                    }
                }
            },
        }
    }
}

/// The disc position just past a track.
pub open spec fn track_end(t: ChdTrackView) -> nat {
    t.start_lba + t.info.frames
}

pub open spec fn track_holds(t: ChdTrackView, lba: nat) -> bool {
    t.start_lba <= lba < track_end(t)
}

pub open spec fn layout_ok(ts: Seq<ChdTrackView>) -> bool {
    &&& ts.len() > 0
    &&& ts[0].start_lba == FIRST_TRACK_PREGAP
    &&& forall|k: int| 0 <= k < ts.len() - 1 ==> (#[trigger] ts[k + 1]).start_lba == track_end(ts[k])
    &&& forall|k: int| 0 <= k < ts.len() ==> track_end(#[trigger] ts[k]) + ts[k].padding_offset <= u32::MAX
}

/// Lays out the tracks one after the other from the end of the pregap.
fn lay_out(infos: Vec<CdTrackInfo>) -> (r: Result<Vec<ChdTrack>, ChdImageError>)
    requires
        infos@.len() > 0,
    ensures
        match layout_from(infos_view(infos@), 0, FIRST_TRACK_PREGAP as nat, 0) {
            Ok(ts) => r is Ok && chd_tracks_view(r->Ok_0@) == ts,
            Err(LayoutFault::UnsupportedSectorFormat(s)) => r is Err && r->Err_0 is UnsupportedSectorFormat
                && r->Err_0->UnsupportedSectorFormat_0@ == s,
            Err(LayoutFault::TooLong) => r is Err && r->Err_0 == ChdImageError::TrackParseError(
                TrackParseError,
            ),
        },
        r is Ok ==> layout_ok(chd_tracks_view(r->Ok_0@)),
{
    let ghost iv = infos_view(infos@);
    let n = infos.len();
    let mut src = infos;
    let mut out: Vec<ChdTrack> = Vec::new();
    let mut lba: u32 = FIRST_TRACK_PREGAP;
    let mut pad: u32 = 0;
    let mut k: usize = 0;
    while k < n
        invariant
            k <= n == iv.len(),
            iv == infos_view(infos@),
            src@.len() == n - k,
            forall|j: int| 0 <= j < src@.len() ==> #[trigger] src@[j].view() == iv[j + k],
            out@.len() == k,
            layout_from(iv, 0, FIRST_TRACK_PREGAP as nat, 0) == match layout_from(iv, k as int, lba as nat, pad as nat) {
                Ok(rest) => Ok(chd_tracks_view(out@) + rest),
                Err(e) => Err(e),
            },
            k == 0 ==> lba == FIRST_TRACK_PREGAP && pad == 0,
            k > 0 ==> chd_tracks_view(out@)[0].start_lba == FIRST_TRACK_PREGAP,
            k > 0 ==> lba == track_end(chd_tracks_view(out@)[k - 1]),
            k > 0 ==> pad >= chd_tracks_view(out@)[k - 1].padding_offset,
            forall|j: int| 0 <= j < k - 1 ==> (#[trigger] chd_tracks_view(out@)[j + 1]).start_lba == track_end(chd_tracks_view(out@)[j]),
            forall|j: int| 0 <= j < k ==> track_end(#[trigger] chd_tracks_view(out@)[j]) + chd_tracks_view(out@)[j].padding_offset <= u32::MAX,
        decreases n - k,
    {
        let ghost old_src = src@;
        let info = src.remove(0);
        assert(info.view() == iv[k as int]);
        assert(forall|j: int| 0 <= j < src@.len() ==> #[trigger] src@[j] == old_src[j + 1]);
        let ty = match sector_format_of(&info.track_type) {
            Some(ty) => ty,
            None => return Err(ChdImageError::UnsupportedSectorFormat(info.track_type)),
        };
        let frames = info.frames;
        let extra: u32 = if frames % 4 == 0 { 0 } else { 4 - frames % 4 };
        if frames > u32::MAX - lba || pad > u32::MAX - lba - frames || extra > u32::MAX - lba - frames - pad {
            return Err(ChdImageError::TrackParseError(TrackParseError));
        }
        let t = ChdTrack { start_lba: lba, track_type: ty, padding_offset: pad, track_info: info };
        let ghost before = chd_tracks_view(out@);
        out.push(t);
        assert(chd_tracks_view(out@) =~= before.push(t.view()));
        let ghost rest = layout_from(iv, k + 1, (lba + frames) as nat, (pad + extra) as nat);
        proof {
            if rest is Ok {
                assert(before.push(t.view()) + rest->Ok_0 =~= before + (seq![t.view()] + rest->Ok_0));
            }
        }
        lba = lba + frames;
        pad = pad + extra;
        k = k + 1;
    }
    assert(chd_tracks_view(out@) + Seq::<ChdTrackView>::empty() =~= chd_tracks_view(out@));
    Ok(out)
}

/// A CHD image's disc: its tracks, the position, and the hunk that holds the
/// sector at the position once it has been read.
pub struct ChdImage {
    tracks: Vec<ChdTrack>,
    hunk: Vec<u8>,
    current_hunk_no: Option<u32>,
    current_lba: u32,
    current_track: usize,
    num_hunks: u32,
    hunk_len: u32,
    sectors_per_hunk: u32,
    invalid_subq_lbas: Option<BTreeSet<u32>>,
}

/// The 2352 bytes of a sector starting at `start` in a hunk; on an audio track
/// each pair of bytes is swapped.
pub open spec fn sector_bytes(hunk: Seq<u8>, start: nat, audio: bool) -> Seq<u8> {
    Seq::new(
        SECTOR_SIZE as nat,
        |i: int|
            if !audio {
                hunk[start + i]
            } else if i % 2 == 0 {
                hunk[start + i + 1]
            } else {
                hunk[start + i - 1]
            },
    )
}

proof fn lemma_sector_fits(k: nat, n: nat)
    requires
        k < n,
    ensures
        k * 2448 + 2448 <= n * 2448,
{
    assert(k * 2448 + 2448 <= n * 2448) by (nonlinear_arith)
        requires
            k < n,
    ;
}

/// A hunk holds whole sectors: its size is a positive multiple of 2448.
pub open spec fn hunk_size_ok(hunk_len: u32) -> bool {
    hunk_len > 0 && hunk_len % BYTES_PER_SECTOR == 0
}

impl ChdImage {
    #[verifier::type_invariant]
    spec fn well_formed(self) -> bool {
        &&& layout_ok(chd_tracks_view(self.tracks@))
        &&& self.current_track < self.tracks@.len()
        &&& hunk_size_ok(self.hunk_len)
        &&& self.sectors_per_hunk == self.hunk_len / BYTES_PER_SECTOR
        &&& self.hunk@.len() == self.hunk_len
    }

    pub closed spec fn tracks(&self) -> Seq<ChdTrackView> {
        chd_tracks_view(self.tracks@)
    }

    pub closed spec fn current_lba(&self) -> nat {
        self.current_lba as nat
    }

    pub closed spec fn current_track_index(&self) -> nat {
        self.current_track as nat
    }

    pub closed spec fn current_hunk_no(&self) -> Option<u32> {
        self.current_hunk_no
    }

    pub closed spec fn hunk_data(&self) -> Seq<u8> {
        self.hunk@
    }

    pub closed spec fn num_hunks(&self) -> nat {
        self.num_hunks as nat
    }

    pub closed spec fn hunk_len(&self) -> nat {
        self.hunk_len as nat
    }

    pub closed spec fn invalid_subq(&self) -> Option<Set<u32>> {
        match self.invalid_subq_lbas {
            Some(s) => Some(s@),
            None => None,
        }
    }

    /// What every CHD image keeps: its tracks follow one another from the end
    /// of the pregap, the position's track exists, and hunks hold whole sectors.
    pub fn layout_facts(&self)
        ensures
            layout_ok(self.tracks()),
            self.current_track_index() < self.tracks().len(),
            hunk_size_ok(self.hunk_len() as u32),
            self.sectors_per_hunk() > 0,
            self.hunk_data().len() == self.hunk_len(),
    {
        proof {
            use_type_invariant(self);
        }
    }

    /// The disc, its hunk at hand and its list of invalid subchannel sectors
    /// are those of `o`: only the position may differ.
    pub open spec fn keeps_disc_of(&self, o: ChdImage) -> bool {
        &&& self.tracks() == o.tracks()
        &&& self.num_hunks() == o.num_hunks()
        &&& self.hunk_len() == o.hunk_len()
        &&& self.hunk_data() == o.hunk_data()
        &&& self.invalid_subq() == o.invalid_subq()
    }

    /// The hunk at hand is still known only if it is the one the new position needs.
    pub open spec fn hunk_kept_from(&self, o: ChdImage) -> bool {
        self.current_hunk_no() == if o.current_hunk_no() == self.wanted_hunk() {
            self.wanted_hunk()
        } else {
            None
        }
    }

    pub open spec fn sectors_per_hunk(&self) -> nat {
        self.hunk_len() / BYTES_PER_SECTOR as nat
    }

    pub open spec fn current(&self) -> ChdTrackView {
        self.tracks()[self.current_track_index() as int]
    }

    /// Position of a disc sector in the file, counting the current track's padding.
    pub open spec fn file_lba(&self, lba: nat) -> nat {
        (lba + self.current().padding_offset - FIRST_TRACK_PREGAP) as nat
    }

    /// The hunk that holds the sector at the position, if the position is past the pregap.
    pub open spec fn wanted_hunk(&self) -> Option<u32> {
        if self.current_lba() < FIRST_TRACK_PREGAP {
            None
        } else {
            Some((self.file_lba(self.current_lba()) / self.sectors_per_hunk()) as u32)
        }
    }

    /// Builds the disc of a CHD file from the file's hunk count and hunk size,
    /// its first hunk, and its metadata entries. The position starts at the
    /// first sector past the pregap, with the first hunk at hand.
    pub fn from_parts(
        num_hunks: u32,
        hunk_len: u32,
        first_hunk: Vec<u8>,
        metadata: &[Metadata],
        invalid_subq_lbas: Option<BTreeSet<u32>>,
    ) -> (r: Result<ChdImage, ChdImageError>)
        requires
            first_hunk@.len() == hunk_len,
        ensures
            !hunk_size_ok(hunk_len) ==> r is Err && r->Err_0 == ChdImageError::WrongHunkSize,
            hunk_size_ok(hunk_len) ==> match cd_tracks_of(metadata@) {
                None => r is Err && r->Err_0 == ChdImageError::TrackParseError(TrackParseError),
                Some(infos) => if infos.len() == 0 {
                    r is Err && r->Err_0 == ChdImageError::NoTracks
                } else {
                    match layout_from(infos, 0, FIRST_TRACK_PREGAP as nat, 0) {
                        Ok(ts) => r is Ok && r->Ok_0.tracks() == ts && r->Ok_0.current_lba()
                            == FIRST_TRACK_PREGAP && r->Ok_0.current_track_index() == 0
                            && r->Ok_0.current_hunk_no() == Some(0u32) && r->Ok_0.hunk_data()
                            == first_hunk@ && r->Ok_0.num_hunks() == num_hunks && r->Ok_0.hunk_len()
                            == hunk_len && r->Ok_0.invalid_subq() == match invalid_subq_lbas {
                            Some(s) => Some(s@),
                            None => None::<Set<u32>>,
                        },
                        Err(LayoutFault::UnsupportedSectorFormat(s)) => r is Err && r->Err_0 is UnsupportedSectorFormat
                            && r->Err_0->UnsupportedSectorFormat_0@ == s,
                        Err(LayoutFault::TooLong) => r is Err && r->Err_0 == ChdImageError::TrackParseError(
                            TrackParseError,
                        ),
                    }
                }
            },
    {
        if hunk_len == 0 || hunk_len % BYTES_PER_SECTOR != 0 {
            return Err(ChdImageError::WrongHunkSize);
        }
        let infos = match cd_tracks(metadata) {
            Ok(infos) => infos,
            Err(e) => return Err(ChdImageError::TrackParseError(e)),
        };
        if infos.len() == 0 {
            return Err(ChdImageError::NoTracks);
        }
        let tracks = lay_out(infos)?;
        Ok(ChdImage {
            tracks,
            hunk: first_hunk,
            current_hunk_no: Some(0),
            current_lba: FIRST_TRACK_PREGAP,
            current_track: 0,
            num_hunks,
            hunk_len,
            sectors_per_hunk: hunk_len / BYTES_PER_SECTOR,
            invalid_subq_lbas,
        })
    }

    /// Whether the position lies on a track and in a hunk of the file.
    pub open spec fn position_ok(&self) -> bool {
        &&& self.current_lba() >= FIRST_TRACK_PREGAP
        &&& track_holds(self.current(), self.current_lba())
        &&& (self.wanted_hunk()->Some_0 as nat) < self.num_hunks()
    }

    /// The hunk to read before the current sector can be copied, if any.
    pub fn needed_hunk(&self) -> (r: Option<u32>)
        ensures
            r == (if self.position_ok() && self.current_hunk_no() != self.wanted_hunk() {
                self.wanted_hunk()
            } else {
                None
            }),
    {
        proof {
            use_type_invariant(self);
        }
        match self.hunk_at(self.current_lba) {
            Some(h) => if self.current_hunk_no == Some(h) {
                None
            } else {
                Some(h)
            },
            None => None,
        }
    }

    /// The hunk of the current track that holds `lba`, if `lba` lies on the
    /// current track and the hunk in the file.
    fn hunk_at(&self, lba: u32) -> (r: Option<u32>)
        requires
            lba == self.current_lba(),
        ensures
            r == (if self.position_ok() {
                self.wanted_hunk()
            } else {
                None
            }),
    {
        proof {
            use_type_invariant(self);
        }
        let t = &self.tracks[self.current_track];
        assert(t.view() == self.current());
        if lba < FIRST_TRACK_PREGAP || lba < t.start_lba || lba - t.start_lba >= t.track_info.frames {
            return None;
        }
        let file_lba = lba + t.padding_offset - FIRST_TRACK_PREGAP;
        let h = file_lba / self.sectors_per_hunk;
        if h >= self.num_hunks {
            None
        } else {
            Some(h)
        }
    }

    /// Takes the bytes of the hunk that `needed_hunk` asked for; anything else
    /// is refused and changes nothing.
    pub fn install_hunk(&mut self, hunk_no: u32, data: Vec<u8>) -> (r: bool)
        ensures
            r == (old(self).needed_hunk_spec() == Some(hunk_no) && data@.len() == old(self).hunk_len()),
            r ==> final(self).current_hunk_no() == Some(hunk_no) && final(self).hunk_data() == data@,
            !r ==> final(self).current_hunk_no() == old(self).current_hunk_no() && final(self).hunk_data()
                == old(self).hunk_data(),
            final(self).tracks() == old(self).tracks(),
            final(self).current_lba() == old(self).current_lba(),
            final(self).current_track_index() == old(self).current_track_index(),
            final(self).num_hunks() == old(self).num_hunks(),
            final(self).hunk_len() == old(self).hunk_len(),
            final(self).invalid_subq() == old(self).invalid_subq(),
    {
        proof {
            use_type_invariant(&*self);
        }
        if self.needed_hunk() == Some(hunk_no) && data.len() == self.hunk_len as usize {
            self.hunk = data;
            self.current_hunk_no = Some(hunk_no);
            true
        } else {
            false
        }
    }

    pub open spec fn needed_hunk_spec(&self) -> Option<u32> {
        if self.position_ok() && self.current_hunk_no() != self.wanted_hunk() {
            self.wanted_hunk()
        } else {
            None
        }
    }

    /// Index of the first track that holds `lba`, trying the current track first.
    fn find_track(&self, lba: u32) -> (r: Option<usize>)
        ensures
            match r {
                Some(t) => t < self.tracks().len() && track_holds(self.tracks()[t as int], lba as nat)
                    && (track_holds(self.current(), lba as nat) ==> t == self.current_track_index()),
                None => forall|k: int| 0 <= k < self.tracks().len() ==> !track_holds(#[trigger] self.tracks()[k], lba as nat),
            },
    {
        proof {
            use_type_invariant(self);
        }
        let c = &self.tracks[self.current_track];
        assert(c.view() == self.current());
        if lba >= c.start_lba && lba - c.start_lba < c.track_info.frames {
            return Some(self.current_track);
        }
        let mut k: usize = 0;
        while k < self.tracks.len()
            invariant
                k <= self.tracks@.len(),
                self.tracks() == chd_tracks_view(self.tracks@),
                !track_holds(self.current(), lba as nat),
                forall|j: int| 0 <= j < k ==> !track_holds(#[trigger] self.tracks()[j], lba as nat),
            decreases self.tracks@.len() - k,
        {
            let t = &self.tracks[k];
            assert(t.view() == self.tracks()[k as int]);
            if lba >= t.start_lba && lba - t.start_lba < t.track_info.frames {
                return Some(k);
            }
            k = k + 1;
        }
        None
    }

    /// Moves to a disc position. In the pregap the first track is current;
    /// otherwise the track that holds the position, which must lie in a hunk
    /// of the file. The hunk at hand is kept only if it is the one needed.
    pub fn set_location_lba(&mut self, lba: u32) -> (r: Result<(), ImageError>)
        ensures
            final(self).tracks() == old(self).tracks(),
            final(self).num_hunks() == old(self).num_hunks(),
            final(self).hunk_len() == old(self).hunk_len(),
            final(self).hunk_data() == old(self).hunk_data(),
            final(self).invalid_subq() == old(self).invalid_subq(),
            final(self).current_lba() == lba,
            lba < FIRST_TRACK_PREGAP ==> r is Ok && final(self).current_track_index() == 0
                && final(self).current_hunk_no() is None,
            lba >= FIRST_TRACK_PREGAP && r is Ok ==> track_holds(final(self).current(), lba as nat)
                && forall|k: int|
                0 <= k < final(self).tracks().len() && track_holds(#[trigger] final(self).tracks()[k], lba as nat)
                    ==> k == final(self).current_track_index(),
            lba >= FIRST_TRACK_PREGAP ==> {
                &&& (r is Ok <==> final(self).position_ok())
                &&& (r is Err ==> r == Err::<(), ImageError>(ImageError::OutOfRange)
                    && final(self).current_hunk_no() is None)
                &&& ((exists|k: int| 0 <= k < old(self).tracks().len() && track_holds(#[trigger] old(self).tracks()[k], lba as nat))
                    ==> track_holds(final(self).current(), lba as nat))
                &&& (track_holds(old(self).current(), lba as nat) ==> final(self).current_track_index() == old(self).current_track_index())
                &&& (r is Ok ==> final(self).current_hunk_no() == if old(self).current_hunk_no() == final(self).wanted_hunk() {
                    final(self).wanted_hunk()
                } else {
                    None
                })
            },
    {
        proof {
            use_type_invariant(&*self);
        }
        let previous = self.current_hunk_no;
        self.current_hunk_no = None;
        self.current_lba = lba;
        if lba < FIRST_TRACK_PREGAP {
            self.current_track = 0;
            return Ok(());
        }
        match self.find_track(lba) {
            Some(t) => {
                self.current_track = t;
            },
            None => return Err(ImageError::OutOfRange),
        }
        match self.hunk_at(lba) {
            Some(h) => {
                if previous == Some(h) {
                    self.current_hunk_no = Some(h);
                }
                proof {
                    use_type_invariant(&*self);
                    assert forall|k: int|
                        0 <= k < self.tracks().len() && track_holds(#[trigger] self.tracks()[k], lba as nat)
                            implies k == self.current_track_index() by {
                        lemma_one_track_holds(self.tracks(), lba as nat, k, self.current_track_index() as int);
                    }
                }
                Ok(())
            },
            None => Err(ImageError::OutOfRange),
        }
    }

    pub fn set_location(&mut self, target: MsfIndex) -> (r: Result<(), ImageError>)
        ensures
            final(self).current_lba() == target.lba(),
            final(self).keeps_disc_of(*old(self)),
            final(self).current_lba() >= FIRST_TRACK_PREGAP && r is Ok ==> final(self).hunk_kept_from(*old(self)),
            final(self).current_lba() < FIRST_TRACK_PREGAP ==> final(self).current_hunk_no() is None,
            target.lba() >= FIRST_TRACK_PREGAP ==> (r is Ok <==> final(self).position_ok()),
            target.lba() >= FIRST_TRACK_PREGAP && r is Ok ==> track_holds(final(self).current(), target.lba())
                && forall|k: int|
                0 <= k < final(self).tracks().len() && track_holds(#[trigger] final(self).tracks()[k], target.lba())
                    ==> k == final(self).current_track_index(),
            target.lba() < FIRST_TRACK_PREGAP ==> r is Ok && final(self).current_track_index() == 0,
    {
        self.set_location_lba(target.to_lba())
    }

    /// Steps to the next sector; stepping off the last track ends the disc.
    pub fn advance_position(&mut self) -> (r: Result<Option<Event>, ImageError>)
        ensures
            final(self).keeps_disc_of(*old(self)),
            old(self).current_lba() == u32::MAX ==> r == Ok::<Option<Event>, ImageError>(Some(Event::EndOfDisc))
                && *final(self) == *old(self),
            old(self).current_lba() < u32::MAX ==> {
                &&& final(self).current_lba() >= FIRST_TRACK_PREGAP && final(self).position_ok()
                    ==> final(self).hunk_kept_from(*old(self))
                &&& final(self).current_lba() < FIRST_TRACK_PREGAP ==> final(self).current_hunk_no() is None
            },
            old(self).current_lba() < u32::MAX ==> final(self).current_lba() == old(self).current_lba() + 1
                && r == Ok::<Option<Event>, ImageError>(
                if final(self).current_lba() >= FIRST_TRACK_PREGAP && !final(self).position_ok() {
                    Some(Event::EndOfDisc)
                } else if final(self).current_track_index() != old(self).current_track_index() {
                    Some(Event::TrackChange)
                } else {
                    None
                },
            ),
            r is Ok,
    {
        if self.current_lba == u32::MAX {
            return Ok(Some(Event::EndOfDisc));
        }
        let old_track = self.current_track;
        match self.set_location_lba(self.current_lba + 1) {
            Err(_) => Ok(Some(Event::EndOfDisc)),
            Ok(()) => if self.current_track != old_track {
                Ok(Some(Event::TrackChange))
            } else {
                Ok(None)
            },
        }
    }

    /// Copies the current sector: zeros inside the pregap, else the sector's
    /// 2352 bytes from the hunk, with each pair of bytes swapped on an audio
    /// track. The hunk must have been installed.
    pub fn copy_current_sector(&self, buf: &mut [u8]) -> (r: Result<(), ImageError>)
        ensures
            old(buf)@.len() != SECTOR_SIZE ==> r == Err::<(), ImageError>(
                ImageError::ChdError(ChdImageError::WrongBufferSize),
            ) && final(buf)@ == old(buf)@,
            old(buf)@.len() == SECTOR_SIZE && self.current_lba() < FIRST_TRACK_PREGAP ==> r is Ok
                && final(buf)@ == Seq::new(SECTOR_SIZE as nat, |i: int| 0u8),
            old(buf)@.len() == SECTOR_SIZE && self.current_lba() >= FIRST_TRACK_PREGAP ==> (r is Ok
                <==> (self.position_ok() && self.current_hunk_no() == self.wanted_hunk())),
            r is Ok && self.current_lba() >= FIRST_TRACK_PREGAP ==> final(buf)@ == sector_bytes(
                self.hunk_data(),
                (self.file_lba(self.current_lba()) % self.sectors_per_hunk()) * BYTES_PER_SECTOR as nat,
                self.current().track_type == TrackType::Audio,
            ),
    {
        proof {
            use_type_invariant(self);
        }
        if buf.len() != SECTOR_SIZE {
            return Err(ImageError::ChdError(ChdImageError::WrongBufferSize));
        }
        if self.current_lba < FIRST_TRACK_PREGAP {
            let mut i: usize = 0;
            while i < buf.len()
                invariant
                    buf@.len() == SECTOR_SIZE,
                    i <= SECTOR_SIZE,
                    forall|j: int| 0 <= j < i ==> buf@[j] == 0u8,
                decreases SECTOR_SIZE - i,
            {
                buf[i] = 0;
                i = i + 1;
            }
            assert(buf@ =~= Seq::new(SECTOR_SIZE as nat, |i: int| 0u8));
            return Ok(());
        }
        let h = match self.hunk_at(self.current_lba) {
            Some(h) => h,
            None => return Err(ImageError::OutOfRange),
        };
        if self.current_hunk_no != Some(h) {
            return Err(ImageError::ChdError(ChdImageError::HunkRecvError));
        }
        let t = &self.tracks[self.current_track];
        assert(t.view() == self.current());
        let file_lba = self.current_lba + t.padding_offset - FIRST_TRACK_PREGAP;
        let sector_in_hunk = file_lba % self.sectors_per_hunk;
        proof {
            lemma_sector_fits(sector_in_hunk as nat, self.sectors_per_hunk as nat);
        }
        let start = sector_in_hunk as usize * BYTES_PER_SECTOR as usize;
        let audio = t.track_type == TrackType::Audio;
        let hl = self.hunk.len();
        let mut i: usize = 0;
        while i < SECTOR_SIZE
            invariant
                hl == self.hunk@.len(),
                buf@.len() == SECTOR_SIZE,
                i <= SECTOR_SIZE,
                i % 2 == 0,
                start + SECTOR_SIZE <= self.hunk@.len(),
                forall|j: int| 0 <= j < i ==> buf@[j] == #[trigger] sector_bytes(self.hunk@, start as nat, audio)[j],
            decreases SECTOR_SIZE - i,
        {
            if audio {
                buf[i] = self.hunk[start + i + 1];
                buf[i + 1] = self.hunk[start + i];
            } else {
                buf[i] = self.hunk[start + i];
                buf[i + 1] = self.hunk[start + i + 1];
            }
            i = i + 2;
        }
        assert(buf@ =~= sector_bytes(self.hunk@, start as nat, audio));
        Ok(())
    }

    pub fn num_tracks(&self) -> (r: usize)
        ensures
            r == self.tracks().len(),
    {
        self.tracks.len()
    }

    pub fn current_subchannel_q_valid(&self) -> (r: bool)
        ensures
            r == match self.invalid_subq() {
                Some(s) => !s.contains(self.current_lba() as u32),
                None => true,
            },
    {
        broadcast use vstd::std_specs::btree::group_btree_axioms, vstd::laws_cmp::group_laws_cmp;
        match &self.invalid_subq_lbas {
            Some(set) => !set.contains(&self.current_lba),
            None => true,
        }
    }

    /// Number of the current track, counting from 1.
    pub fn current_track(&self) -> (r: Result<u8, ImageError>)
        ensures
            self.current_track_index() < 255 ==> r == Ok::<u8, ImageError>((self.current_track_index() + 1) as u8),
            self.current_track_index() >= 255 ==> r == Err::<u8, ImageError>(ImageError::OutOfRange),
    {
        if self.current_track >= 255 {
            Err(ImageError::OutOfRange)
        } else {
            Ok(self.current_track as u8 + 1)
        }
    }

    /// 1 from index 1 of the current track on, 0 before it.
    pub fn current_index(&self) -> (r: Result<u8, ImageError>)
        ensures
            r == Ok::<u8, ImageError>(
                if self.current_lba() >= Self::index01(self.current(), self.current_track_index() as int) {
                    1
                } else {
                    0
                },
            ),
    {
        proof {
            use_type_invariant(self);
        }
        let one = self.index01_of(self.current_track);
        if self.current_lba as u64 >= one {
            Ok(1)
        } else {
            Ok(0)
        }
    }

    /// Pregap of track `k` where its metadata gives none: 150 sectors for the
    /// first track, none for the others.
    pub open spec fn default_pregap(k: int) -> nat {
        if k == 0 {
            FIRST_TRACK_PREGAP as nat
        } else {
            0
        }
    }

    /// Disc position of index 1 of track `k`: its start plus its pregap.
    pub open spec fn index01(t: ChdTrackView, k: int) -> nat {
        t.start_lba + match t.info.pregap {
            Some(p) => p,
            None => Self::default_pregap(k),
        }
    }

    fn index01_of(&self, k: usize) -> (r: u64)
        requires
            k < self.tracks().len(),
        ensures
            r == Self::index01(self.tracks()[k as int], k as int),
    {
        let t = &self.tracks[k];
        assert(t.view() == self.tracks()[k as int]);
        let pregap = match t.track_info.pregap {
            Some(p) => p,
            None => if k == 0 {
                FIRST_TRACK_PREGAP
            } else {
                0
            },
        };
        t.start_lba as u64 + pregap as u64
    }

    /// Position relative to index 1 of the current track; before it, the
    /// distance counts down from `100:00:00`.
    pub fn current_track_local_msf(&self) -> (r: Result<MsfIndex, ImageError>)
        ensures
            ({
                let one = Self::index01(self.current(), self.current_track_index() as int);
                let lba = self.current_lba();
                if lba < one {
                    if one - lba > MSF_LBA_LIMIT {
                        r == Err::<MsfIndex, ImageError>(ImageError::MsfIndexError(MsfIndexError::OutOfRangeError))
                    } else {
                        msf_result_ok(r, (MSF_LBA_LIMIT - (one - lba)) as nat)
                    }
                } else {
                    msf_result_ok(r, (lba - one) as nat)
                }
            }),
    {
        proof {
            use_type_invariant(self);
        }
        let one = self.index01_of(self.current_track);
        let lba = self.current_lba as u64;
        if lba < one {
            let offset = one - lba;
            if offset > MSF_LBA_LIMIT as u64 {
                return Err(ImageError::MsfIndexError(MsfIndexError::OutOfRangeError));
            }
            crate::cue::msf_of(MSF_LBA_LIMIT as u64 - offset)
        } else {
            crate::cue::msf_of(lba - one)
        }
    }

    pub fn current_global_msf(&self) -> (r: Result<MsfIndex, ImageError>)
        ensures
            msf_result_ok(r, self.current_lba()),
    {
        crate::cue::msf_of(self.current_lba as u64)
    }

    pub fn current_track_type(&self) -> (r: Result<TrackType, ImageError>)
        ensures
            r == Ok::<TrackType, ImageError>(self.current().track_type),
    {
        proof {
            use_type_invariant(self);
        }
        Ok(self.tracks[self.current_track].track_type)
    }

    pub fn first_track_type(&self) -> (r: TrackType)
        ensures
            r == self.tracks()[0].track_type,
    {
        proof {
            use_type_invariant(self);
        }
        self.tracks[0].track_type
    }

    /// Where index 1 of a track lies on the disc. Track 0 stands for the whole
    /// disc: the pregap and every sector the hunks hold.
    pub fn track_start(&self, track: u8) -> (r: Result<MsfIndex, ImageError>)
        ensures
            track == 0 ==> msf_result_ok(
                r,
                FIRST_TRACK_PREGAP as nat + self.num_hunks() * self.hunk_len() / BYTES_PER_SECTOR as nat,
            ),
            0 < track <= self.tracks().len() ==> msf_result_ok(
                r,
                Self::index01(self.tracks()[track - 1], track - 1),
            ),
            track > self.tracks().len() ==> r == Err::<MsfIndex, ImageError>(ImageError::OutOfRange),
    {
        proof {
            use_type_invariant(self);
        }
        if track == 0 {
            let (a, b) = (self.num_hunks as u64, self.hunk_len as u64);
            assert(a * b <= 0xffff_ffff * 0xffff_ffff) by (nonlinear_arith)
                requires
                    a <= 0xffff_ffff,
                    b <= 0xffff_ffff,
            ;
            let len: u64 = a * b;
            return crate::cue::msf_of(FIRST_TRACK_PREGAP as u64 + len / BYTES_PER_SECTOR as u64);
        }
        if track as usize > self.tracks.len() {
            return Err(ImageError::OutOfRange);
        }
        crate::cue::msf_of(self.index01_of(track as usize - 1))
    }

    /// Moves to index 1 of a track; track 0 stands for the end of the disc.
    pub fn set_location_to_track(&mut self, track: u8) -> (r: Result<(), ImageError>)
        ensures
            final(self).keeps_disc_of(*old(self)),
            r is Ok && final(self).current_lba() >= FIRST_TRACK_PREGAP ==> final(self).hunk_kept_from(*old(self)),
            r is Ok && final(self).current_lba() < FIRST_TRACK_PREGAP ==> final(self).current_hunk_no() is None,
            match old(self).track_start_spec(track) {
                None => r == Err::<(), ImageError>(ImageError::OutOfRange) && *final(self) == *old(self),
                Some(l) => if l >= MSF_LBA_LIMIT {
                    r == Err::<(), ImageError>(
                        ImageError::MsfIndexError(MsfIndexError::OutOfRangeError),
                    ) && *final(self) == *old(self)
                } else {
                    &&& final(self).current_lba() == l
                    &&& l >= FIRST_TRACK_PREGAP ==> (r is Ok <==> final(self).position_ok())
                    &&& l < FIRST_TRACK_PREGAP ==> r is Ok && final(self).current_track_index() == 0
                },
            },
    {
        let start = self.track_start(track)?;
        self.set_location(start)
    }

    pub open spec fn track_start_spec(&self, track: u8) -> Option<nat> {
        if track == 0 {
            Some(FIRST_TRACK_PREGAP as nat + self.num_hunks() * self.hunk_len() / BYTES_PER_SECTOR as nat)
        } else if track <= self.tracks().len() {
            Some(Self::index01(self.tracks()[track - 1], track - 1))
        } else {
            None
        }
    }

    /// The hunk to read ahead for a disc position, counting the current
    /// track's padding; `None` inside the pregap or past the file.
    pub fn prefetch_hunk(&self, location: MsfIndex) -> (r: Option<u32>)
        ensures
            location.lba() < FIRST_TRACK_PREGAP ==> r is None,
            location.lba() >= FIRST_TRACK_PREGAP ==> r == (if (self.file_lba(location.lba())
                / self.sectors_per_hunk()) < self.num_hunks() {
                Some((self.file_lba(location.lba()) / self.sectors_per_hunk()) as u32)
            } else {
                None
            }),
    {
        proof {
            use_type_invariant(self);
        }
        let lba = location.to_lba();
        if lba < FIRST_TRACK_PREGAP {
            return None;
        }
        let t = &self.tracks[self.current_track];
        assert(t.view() == self.current());
        let file_lba: u64 = lba as u64 + t.padding_offset as u64 - FIRST_TRACK_PREGAP as u64;
        let h = file_lba / self.sectors_per_hunk as u64;
        if h >= self.num_hunks as u64 {
            None
        } else {
            Some(h as u32)
        }
    }
}

/// Deepest chain of parents that is followed.
pub const MAX_PARENT_DEPTH: u8 = 10;

/// What to do with a CHD file whose header has been read.
#[derive(Clone, Copy, Debug, PartialEq, Eq, Structural)]
pub enum ParentStep {
    /// It needs no parent.
    OpenAlone,
    /// Its parent is the candidate at this index.
    OpenWith(usize),
}

/// Index of the first candidate whose content digest is `p`, from `i` on.
pub open spec fn first_match(cands: Seq<Option<[u8; 20]>>, p: Seq<u8>, i: int) -> Option<int>
    decreases cands.len() - i,
{
    if i < 0 || i >= cands.len() {
        None
    } else if cands[i] matches Some(d) && d@ == p {
        Some(i)
    } else {
        first_match(cands, p, i + 1)
    }
}

fn digest_eq(a: &[u8; 20], b: &[u8; 20]) -> (r: bool)
    ensures
        r == (a@ == b@),
{
    bytes_eq(a.as_slice(), b.as_slice())
}

/// Decides how to open a CHD file at depth `depth` of a chain of parents,
/// given whether its header asks for a parent, the parent's digest if the
/// header gives one, and the content digests of the candidate parents (`None`
/// where a candidate's header could not be read or has none).
pub fn parent_action(
    depth: u8,
    has_parent: bool,
    parent_sha1: Option<[u8; 20]>,
    candidates: &Vec<Option<[u8; 20]>>,
) -> (r: Result<ParentStep, ChdImageError>)
    ensures
        depth >= MAX_PARENT_DEPTH ==> r is Err && r->Err_0 == ChdImageError::RecursionDepthExceeded,
        depth < MAX_PARENT_DEPTH && !has_parent ==> r == Ok::<ParentStep, ChdImageError>(ParentStep::OpenAlone),
        depth < MAX_PARENT_DEPTH && has_parent ==> match parent_sha1 {
            None => r is Err && r->Err_0 == ChdImageError::UnsupportedChdVersion,
            Some(p) => match first_match(candidates@, p@, 0) {
                Some(i) => r == Ok::<ParentStep, ChdImageError>(ParentStep::OpenWith(i as usize)),
                None => r is Err && r->Err_0 == ChdImageError::ParentNotFound,
            },
        },
{
    if depth >= MAX_PARENT_DEPTH {
        return Err(ChdImageError::RecursionDepthExceeded);
    }
    if !has_parent {
        return Ok(ParentStep::OpenAlone);
    }
    let p = match parent_sha1 {
        Some(p) => p,
        None => return Err(ChdImageError::UnsupportedChdVersion),
    };
    let mut i: usize = 0;
    while i < candidates.len()
        invariant
            i <= candidates@.len(),
            depth < MAX_PARENT_DEPTH,
            has_parent,
            parent_sha1 == Some(p),
            first_match(candidates@, p@, 0) == first_match(candidates@, p@, i as int),
        decreases candidates@.len() - i,
    {
        if let Some(d) = &candidates[i] {
            if digest_eq(d, &p) {
                return Ok(ParentStep::OpenWith(i));
            }
        }
        i = i + 1;
    }
    Err(ChdImageError::ParentNotFound)
}

/// The tracks of a CHD image follow one another, so at most one of them holds
/// a disc position: the one that `set_location` makes current.
pub proof fn lemma_one_track_holds(ts: Seq<ChdTrackView>, lba: nat, a: int, b: int)
    requires
        layout_ok(ts),
        0 <= a < ts.len(),
        0 <= b < ts.len(),
        track_holds(ts[a], lba),
        track_holds(ts[b], lba),
    ensures
        a == b,
{
    if a != b {
        let (x, y) = if a < b { (a, b) } else { (b, a) };
        lemma_starts_grow(ts, x + 1, y);
        assert(ts[x + 1].start_lba == track_end(ts[x]));
    }
}

proof fn lemma_starts_grow(ts: Seq<ChdTrackView>, i: int, j: int)
    requires
        layout_ok(ts),
        0 < i <= j < ts.len(),
    ensures
        ts[i].start_lba <= ts[j].start_lba,
    decreases j - i,
{
    if i < j {
        lemma_starts_grow(ts, i, j - 1);
        let k = j - 1;
        assert(0 <= k < ts.len() - 1);
        assert(ts[k + 1].start_lba == track_end(ts[k]));
    }
}

} // verus!
