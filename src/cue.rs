//! Cue sheets: a text manifest over one or more files of raw 2352-byte sectors.
use vstd::prelude::*;
use vec_map::VecMap;
use crate::index::{find_byte, lba_fields, parse_msf, msf_lba, MsfIndex, MsfIndexError, MSF_LBA_LIMIT};
use crate::text::{
    copy_range, find_from, pieces, split_lines, split_tokens, tokens, trim, trim_bounds,
    upper_range, upper_seq, bytes_eq, decimal_in, parse_decimal, lines_of, space_suffix, suffix_space,
};
use crate::{Event, ImageError, TrackType};
use std::collections::BTreeSet;
use vstd::string::StringSliceAdditionalSpecFns;

verus! {

#[verifier::external_type_specification]
#[verifier::external_body]
#[verifier::reject_recursive_types(V)]
pub struct ExVecMap<V>(VecMap<V>);

#[verifier::external_type_specification]
#[verifier::external_body]
pub struct ExIoError(std::io::Error);

/// The entries of an index map, keyed by index number.
pub uninterp spec fn index_entries(m: VecMap<u32>) -> Map<usize, u32>;

/// Relies on `VecMap::new`: the map starts empty.
#[verifier::external_body]
fn index_map_new() -> (m: VecMap<u32>)
    ensures
        index_entries(m) =~= Map::empty(),
{
    VecMap::new()
}

/// Relies on `VecMap::get`: the value stored under `k`, if there is one.
#[verifier::external_body]
fn index_map_get(m: &VecMap<u32>, k: usize) -> (r: Option<u32>)
    ensures
        index_entries(*m).contains_key(k) ==> r == Some(index_entries(*m)[k]),
        !index_entries(*m).contains_key(k) ==> r is None,
{
    m.get(k).copied()
}

/// Relies on `VecMap::insert`: stores `v` under `k`, replacing what was there;
/// the map grows its vector to `k + 1` slots.
#[verifier::external_body]
fn index_map_insert(m: &mut VecMap<u32>, k: usize, v: u32)
    requires
        k <= 255,
    ensures
        index_entries(*final(m)) == index_entries(*old(m)).insert(k, v),
{
    m.insert(k, v);
}

#[derive(Debug)]
pub enum CueError {
    MsfParseError(MsfIndexError),
    ParseIntError,
    IoError(std::io::Error),
    /// The upper-cased name of a directive that is not known.
    InvalidCommandError(Vec<u8>),
    InvalidTrackLine,
    InvalidTrackNumber,
    NoTracks,
    TrackWithoutIndex01,
    UnknownTrackType(Vec<u8>),
    UnknownBinMode(Vec<u8>),
    InvalidPregapLine,
    InvalidIndexLine,
    /// A second index 0 in one track, index positions that go backwards, or
    /// an index past the end of its file.
    InvalidIndexNumber,
    NoBinFiles,
    FileNameParseError,
    TrackCommandWithoutBinFile,
    IndexCommandWithoutTrack,
    Utf8Error,
}

/// A cue sheet error as a value, with names held as byte strings.
pub enum CueFault {
    MsfParseError(MsfIndexError),
    ParseIntError,
    IoError,
    InvalidCommandError(Seq<u8>),
    InvalidTrackLine,
    InvalidTrackNumber,
    NoTracks,
    TrackWithoutIndex01,
    UnknownTrackType(Seq<u8>),
    UnknownBinMode(Seq<u8>),
    InvalidPregapLine,
    InvalidIndexLine,
    InvalidIndexNumber,
    NoBinFiles,
    FileNameParseError,
    TrackCommandWithoutBinFile,
    IndexCommandWithoutTrack,
    Utf8Error,
}

impl CueError {
    pub open spec fn view(&self) -> CueFault {
        match self {
            CueError::MsfParseError(e) => CueFault::MsfParseError(*e),
            CueError::ParseIntError => CueFault::ParseIntError,
            CueError::IoError(_) => CueFault::IoError,
            CueError::InvalidCommandError(s) => CueFault::InvalidCommandError(s@),
            CueError::InvalidTrackLine => CueFault::InvalidTrackLine,
            CueError::InvalidTrackNumber => CueFault::InvalidTrackNumber,
            CueError::NoTracks => CueFault::NoTracks,
            CueError::TrackWithoutIndex01 => CueFault::TrackWithoutIndex01,
            CueError::UnknownTrackType(s) => CueFault::UnknownTrackType(s@),
            CueError::UnknownBinMode(s) => CueFault::UnknownBinMode(s@),
            CueError::InvalidPregapLine => CueFault::InvalidPregapLine,
            CueError::InvalidIndexLine => CueFault::InvalidIndexLine,
            CueError::InvalidIndexNumber => CueFault::InvalidIndexNumber,
            CueError::NoBinFiles => CueFault::NoBinFiles,
            CueError::FileNameParseError => CueFault::FileNameParseError,
            CueError::TrackCommandWithoutBinFile => CueFault::TrackCommandWithoutBinFile,
            CueError::IndexCommandWithoutTrack => CueFault::IndexCommandWithoutTrack,
            CueError::Utf8Error => CueFault::Utf8Error,
        }
    }
}

#[derive(Clone, Copy, Debug, PartialEq, Eq, Structural)]
pub enum BinMode {
    Binary,
    Wave,
    Mp3,
    Aiff,
    Motorola,
}

pub open spec fn bin_mode_of(u: Seq<u8>) -> Option<BinMode> {
    if u == seq![66u8, 73, 78, 65, 82, 89] {
        Some(BinMode::Binary)
    } else if u == seq![87u8, 65, 86, 69] {
        Some(BinMode::Wave)
    } else if u == seq![77u8, 80, 51] {
        Some(BinMode::Mp3)
    } else if u == seq![65u8, 73, 70, 70] {
        Some(BinMode::Aiff)
    } else if u == seq![77u8, 79, 84, 79, 82, 79, 76, 65] {
        Some(BinMode::Motorola)
    } else {
        None
    }
}

pub open spec fn track_type_of(u: Seq<u8>) -> Option<TrackType> {
    if u == seq![65u8, 85, 68, 73, 79] {
        Some(TrackType::Audio)
    } else if u == seq![77u8, 79, 68, 69, 49] || u == seq![77u8, 79, 68, 69, 49, 47, 50, 51, 53, 50] {
        Some(TrackType::Mode1)
    } else if u == seq![77u8, 79, 68, 69, 50] || u == seq![77u8, 79, 68, 69, 50, 47, 50, 51, 53, 50] {
        Some(TrackType::Mode2)
    } else {
        None
    }
}

/// The mode or type named by a word: trimmed, upper-cased, looked up.
pub open spec fn named_bin_mode(s: Seq<u8>) -> Result<BinMode, CueFault> {
    match bin_mode_of(upper_seq(trim(s))) {
        Some(m) => Ok(m),
        None => Err(CueFault::UnknownBinMode(upper_seq(trim(s)))),
    }
}

pub open spec fn named_track_type(s: Seq<u8>) -> Result<TrackType, CueFault> {
    match track_type_of(upper_seq(trim(s))) {
        Some(t) => Ok(t),
        None => Err(CueFault::UnknownTrackType(upper_seq(trim(s)))),
    }
}

fn keyword_is(u: &Vec<u8>, k: Vec<u8>) -> (r: bool)
    ensures
        r == (u@ == k@),
{
    bytes_eq(u.as_slice(), k.as_slice())
}

fn bin_mode_from_upper(u: &Vec<u8>) -> (r: Option<BinMode>)
    ensures
        r == bin_mode_of(u@),
{
    if keyword_is(u, vec![66u8, 73, 78, 65, 82, 89]) {
        Some(BinMode::Binary)
    } else if keyword_is(u, vec![87u8, 65, 86, 69]) {
        Some(BinMode::Wave)
    } else if keyword_is(u, vec![77u8, 80, 51]) {
        Some(BinMode::Mp3)
    } else if keyword_is(u, vec![65u8, 73, 70, 70]) {
        Some(BinMode::Aiff)
    } else if keyword_is(u, vec![77u8, 79, 84, 79, 82, 79, 76, 65]) {
        Some(BinMode::Motorola)
    } else {
        None
    }
}

fn track_type_from_upper(u: &Vec<u8>) -> (r: Option<TrackType>)
    ensures
        r == track_type_of(u@),
{
    if keyword_is(u, vec![65u8, 85, 68, 73, 79]) {
        Some(TrackType::Audio)
    } else if keyword_is(u, vec![77u8, 79, 68, 69, 49]) || keyword_is(
        u,
        vec![77u8, 79, 68, 69, 49, 47, 50, 51, 53, 50],
    ) {
        Some(TrackType::Mode1)
    } else if keyword_is(u, vec![77u8, 79, 68, 69, 50]) || keyword_is(
        u,
        vec![77u8, 79, 68, 69, 50, 47, 50, 51, 53, 50],
    ) {
        Some(TrackType::Mode2)
    } else {
        None
    }
}

fn bin_mode_in(s: &[u8], lo: usize, hi: usize) -> (r: Result<BinMode, CueError>)
    requires
        lo <= hi <= s@.len(),
    ensures
        match named_bin_mode(s@.subrange(lo as int, hi as int)) {
            Ok(m) => r == Ok::<BinMode, CueError>(m),
            Err(e) => r is Err && r->Err_0.view() == e,
        },
{
    let (a, b) = trim_bounds(s, lo, hi);
    let u = upper_range(s, a, b);
    match bin_mode_from_upper(&u) {
        Some(m) => Ok(m),
        None => Err(CueError::UnknownBinMode(u)),
    }
}

fn track_type_in(s: &[u8], lo: usize, hi: usize) -> (r: Result<TrackType, CueError>)
    requires
        lo <= hi <= s@.len(),
    ensures
        match named_track_type(s@.subrange(lo as int, hi as int)) {
            Ok(t) => r == Ok::<TrackType, CueError>(t),
            Err(e) => r is Err && r->Err_0.view() == e,
        },
{
    let (a, b) = trim_bounds(s, lo, hi);
    let u = upper_range(s, a, b);
    match track_type_from_upper(&u) {
        Some(t) => Ok(t),
        None => Err(CueError::UnknownTrackType(u)),
    }
}

impl BinMode {
    /// Reads a file mode word, in any case, surrounding whitespace tolerated.
    pub fn try_from_str(s: &str) -> (r: Result<BinMode, CueError>)
        ensures
            match named_bin_mode(s.spec_bytes()) {
                Ok(m) => r == Ok::<BinMode, CueError>(m),
                Err(e) => r is Err && r->Err_0.view() == e,
            },
    {
        let b = s.as_bytes();
        assert(b@.subrange(0, b@.len() as int) =~= b@);
        bin_mode_in(b, 0, b.len())
    }
}


impl TrackType {
    /// Reads a track type word, in any case, surrounding whitespace tolerated;
    /// `MODE1/2352` and `MODE2/2352` stand for `MODE1` and `MODE2`.
    pub fn try_from_str(s: &str) -> (r: Result<TrackType, CueError>)
        ensures
            match named_track_type(s.spec_bytes()) {
                Ok(t) => r == Ok::<TrackType, CueError>(t),
                Err(e) => r is Err && r->Err_0.view() == e,
            },
    {
        let b = s.as_bytes();
        assert(b@.subrange(0, b@.len() as int) =~= b@);
        track_type_in(b, 0, b.len())
    }
}

/// A track of a cue sheet. Positions are sectors counted from the start of
/// the track's file.
pub struct Track {
    pub track_type: TrackType,
    pub starting_lba: u32,
    pub num_sectors: u32,
    /// Index number to position, as given by the INDEX lines.
    pub indices: VecMap<u32>,
}

pub struct TrackView {
    pub track_type: TrackType,
    pub starting_lba: nat,
    pub num_sectors: nat,
    pub indices: Map<usize, u32>,
}

impl Track {
    pub open spec fn view(&self) -> TrackView {
        TrackView {
            track_type: self.track_type,
            starting_lba: self.starting_lba as nat,
            num_sectors: self.num_sectors as nat,
            indices: index_entries(self.indices),
        }
    }

    /// Position of the track's first index: index 0 if there is one, else index 1.
    fn first_index_lba(&self) -> (r: u32)
        requires
            has_index(self.view()),
        ensures
            r == first_index(self.view()),
    {
        match index_map_get(&self.indices, 0) {
            Some(lba) => lba,
            None => index_map_get(&self.indices, 1).unwrap(),
        }
    }

    /// Position of the track's index 1, or of its index 0 where it has no index 1.
    fn index_one_lba(&self) -> (r: u32)
        requires
            has_index(self.view()),
        ensures
            r == index_one(self.view()),
    {
        match index_map_get(&self.indices, 1) {
            Some(lba) => lba,
            None => index_map_get(&self.indices, 0).unwrap(),
        }
    }
}

/// The track has an index 0 or an index 1.
pub open spec fn has_index(t: TrackView) -> bool {
    t.indices.contains_key(0) || t.indices.contains_key(1)
}

/// Position of index 1, or of index 0 in a lone track of a file that has no index 1.
pub open spec fn index_one(t: TrackView) -> nat {
    if t.indices.contains_key(1) {
        t.indices[1] as nat
    } else {
        t.indices[0] as nat
    }
}

/// A track lacks the index it needs: index 1 in a file of several tracks,
/// some first index in a file of one track.
pub open spec fn lacks_index(ts: Seq<TrackView>, i: int) -> bool {
    if ts.len() >= 2 {
        !ts[i].indices.contains_key(1)
    } else {
        !has_index(ts[i])
    }
}

pub open spec fn first_index(t: TrackView) -> nat {
    if t.indices.contains_key(0) {
        t.indices[0] as nat
    } else {
        t.indices[1] as nat
    }
}

pub open spec fn tracks_view(ts: Seq<Track>) -> Seq<TrackView> {
    ts.map_values(|t: Track| t.view())
}

/// The tracks of one file laid out one after the other: each track runs from
/// its first index to the next track's, the last one's length still open.
/// Every track needs an index 1 and positions may not go backwards.
pub open spec fn arrange(ts: Seq<TrackView>) -> Result<Seq<TrackView>, CueFault> {
    if ts.len() == 0 {
        Err(CueFault::NoTracks)
    } else if exists|i: int| 0 <= i < ts.len() && #[trigger] lacks_index(ts, i) {
        Err(CueFault::TrackWithoutIndex01)
    } else if exists|i: int|
        0 <= i < ts.len() - 1 && first_index(ts[i + 1]) < first_index(#[trigger] ts[i]) {
        Err(CueFault::InvalidIndexNumber)
    } else {
        Ok(
            Seq::new(
                ts.len(),
                |i: int|
                    TrackView {
                        track_type: ts[i].track_type,
                        starting_lba: (first_index(ts[i]) - first_index(ts[0])) as nat,
                        num_sectors: if i + 1 < ts.len() {
                            (first_index(ts[i + 1]) - first_index(ts[i])) as nat
                        } else {
                            0
                        },
                        indices: ts[i].indices,
                    },
            ),
        )
    }
}

/// Every index position lies on the disc.
pub open spec fn indices_on_disc(t: TrackView) -> bool {
    forall|k: usize| #[trigger] t.indices.contains_key(k) ==> t.indices[k] < MSF_LBA_LIMIT
}

/// The first index position of each track, if every track has an index 1.
fn first_indices(ts: &Vec<Track>) -> (r: Option<Vec<u32>>)
    ensures
        r is None <==> exists|i: int| 0 <= i < ts@.len() && #[trigger] lacks_index(tracks_view(ts@), i),
        r is Some ==> r->Some_0@.len() == ts@.len() && forall|k: int|
            0 <= k < ts@.len() ==> r->Some_0@[k] == first_index(#[trigger] ts@[k].view()),
{
    let mut firsts: Vec<u32> = Vec::new();
    let mut i: usize = 0;
    while i < ts.len()
        invariant
            i <= ts@.len(),
            firsts@.len() == i,
            forall|k: int| 0 <= k < i ==> !#[trigger] lacks_index(tracks_view(ts@), k),
            forall|k: int| 0 <= k < i ==> has_index(#[trigger] ts@[k].view()),
            forall|k: int| 0 <= k < i ==> firsts@[k] == first_index(#[trigger] ts@[k].view()),
        decreases ts@.len() - i,
    {
        assert(tracks_view(ts@)[i as int] == ts@[i as int].view());
        let has1 = index_map_get(&ts[i].indices, 1).is_some();
        let has0 = index_map_get(&ts[i].indices, 0).is_some();
        if !has1 && (ts.len() >= 2 || !has0) {
            assert(lacks_index(tracks_view(ts@), i as int));
            return None;
        }
        let f = ts[i].first_index_lba();
        firsts.push(f);
        i = i + 1;
    }
    Some(firsts)
}

/// Whether the positions never go backwards.
fn ascending(f: &Vec<u32>) -> (r: bool)
    ensures
        r == forall|k: int| 0 <= k < f@.len() - 1 ==> #[trigger] f@[k] <= f@[k + 1],
{
    if f.len() == 0 {
        return true;
    }
    let mut j: usize = 0;
    while j < f.len() - 1
        invariant
            f@.len() > 0,
            forall|k: int| 0 <= k < j && k < f@.len() - 1 ==> #[trigger] f@[k] <= f@[k + 1],
        decreases f@.len() - j,
    {
        if f[j + 1] < f[j] {
            return false;
        }
        j = j + 1;
    }
    true
}

proof fn lemma_ascending_from_first(f: Seq<u32>, k: int)
    requires
        0 <= k < f.len(),
        forall|m: int| 0 <= m < f.len() - 1 ==> #[trigger] f[m] <= f[m + 1],
    ensures
        f[0] <= f[k],
    decreases k,
{
    if k > 0 {
        lemma_ascending_from_first(f, k - 1);
        assert(f[k - 1] <= f[k]);
    }
}

/// What laying out a file's tracks guarantees of each of them.
pub open spec fn arranged_ok(t: TrackView) -> bool {
    &&& has_index(t)
    &&& indices_on_disc(t)
    &&& t.starting_lba <= first_index(t)
    &&& t.starting_lba + t.num_sectors < MSF_LBA_LIMIT
}

/// What reading a cue sheet guarantees of the files it yields.
/// Tracks laid out one after the other from the start of their file, the last
/// one starting as far from the first as their first indices lie apart.
pub open spec fn laid_out(ts: Seq<TrackView>) -> bool {
    &&& ts.len() > 0 ==> ts[0].starting_lba == 0
    &&& forall|t: int| 0 <= t < ts.len() - 1 ==> (#[trigger] ts[t + 1]).starting_lba == ts[t].starting_lba
        + ts[t].num_sectors
    &&& ts.len() > 0 ==> ts.last().starting_lba + first_index(ts[0]) == first_index(ts.last())
}

proof fn lemma_first_ascending(ts: Seq<TrackView>, k: int)
    requires
        0 <= k < ts.len(),
        !(exists|i: int| 0 <= i < ts.len() - 1 && first_index(ts[i + 1]) < first_index(#[trigger] ts[i])),
    ensures
        first_index(ts[0]) <= first_index(ts[k]),
    decreases k,
{
    if k > 0 {
        lemma_first_ascending(ts, k - 1);
        let i = k - 1;
        assert(!(first_index(ts[i + 1]) < first_index(ts[i])));
    }
}

proof fn lemma_arrange_laid_out(ts: Seq<TrackView>)
    requires
        arrange(ts) is Ok,
    ensures
        laid_out(arrange(ts)->Ok_0),
{
    let a = arrange(ts)->Ok_0;
    assert forall|t: int| 0 <= t < a.len() - 1 implies (#[trigger] a[t + 1]).starting_lba == a[t].starting_lba
        + a[t].num_sectors by {
        lemma_first_ascending(ts, t);
        assert(!(first_index(ts[t + 1]) < first_index(ts[t])));
        assert(a[t].indices == ts[t].indices);
    }
    lemma_first_ascending(ts, ts.len() - 1);
    assert(a[0].indices == ts[0].indices);
    assert(a.last().indices == ts.last().indices);
}

pub open spec fn files_ok(fs: Seq<CueFileView>) -> bool {
    &&& 0 < fs.len() <= 255
    &&& forall|f: int| 0 <= f < fs.len() ==> laid_out(#[trigger] fs[f].tracks)
    &&& forall|f: int| 0 <= f < fs.len() ==> 0 < (#[trigger] fs[f]).tracks.len() <= 255
    &&& forall|f: int, t: int|
        0 <= f < fs.len() && 0 <= t < fs[f].tracks.len() ==> arranged_ok(#[trigger] fs[f].tracks[t])
}

fn arrange_tracks(ts: Vec<Track>) -> (r: Result<Vec<Track>, CueError>)
    requires
        forall|i: int| 0 <= i < ts@.len() ==> indices_on_disc(#[trigger] ts@[i].view()),
    ensures
        match arrange(tracks_view(ts@)) {
            Ok(a) => r is Ok && tracks_view(r->Ok_0@) == a,
            Err(e) => r is Err && r->Err_0.view() == e,
        },
        r is Ok ==> forall|i: int|
            0 <= i < r->Ok_0@.len() ==> arranged_ok(#[trigger] r->Ok_0@[i].view()),
        r is Ok ==> laid_out(tracks_view(r->Ok_0@)),
{
    proof {
        if arrange(tracks_view(ts@)) is Ok {
            lemma_arrange_laid_out(tracks_view(ts@));
        }
    }
    let ghost tv = tracks_view(ts@);
    assert(forall|k: int| 0 <= k < ts@.len() ==> #[trigger] tv[k] == ts@[k].view());
    if ts.len() == 0 {
        return Err(CueError::NoTracks);
    }
    let firsts = match first_indices(&ts) {
        Some(f) => f,
        None => {
            let ghost i = choose|i: int| 0 <= i < ts@.len() && #[trigger] lacks_index(tracks_view(ts@), i);
            assert(lacks_index(tv, i));
            return Err(CueError::TrackWithoutIndex01);
        },
    };
    assert(forall|k: int| 0 <= k < tv.len() ==> firsts@[k] == first_index(#[trigger] tv[k]));
    if !ascending(&firsts) {
        let ghost k = choose|k: int| 0 <= k < firsts@.len() - 1 && !(#[trigger] firsts@[k] <= firsts@[k + 1]);
        assert(first_index(tv[k + 1]) < first_index(tv[k]));
        return Err(CueError::InvalidIndexNumber);
    }
    let n = ts.len();
    let ghost arranged = arrange(tv)->Ok_0;
    let mut src = ts;
    let mut out: Vec<Track> = Vec::new();
    let mut i: usize = 0;
    while i < n
        invariant
            i <= n == firsts@.len() == tv.len(),
            src@.len() == n - i,
            arranged == arrange(tv)->Ok_0,
            arrange(tv) is Ok,
            forall|k: int| 0 <= k < src@.len() ==> #[trigger] src@[k].view() == tv[k + i],
            forall|k: int| 0 <= k < n ==> firsts@[k] == first_index(#[trigger] tv[k]),
            forall|k: int| 0 <= k < n - 1 ==> #[trigger] firsts@[k] <= firsts@[k + 1],
            forall|k: int| 0 <= k < n ==> indices_on_disc(#[trigger] tv[k]),
            tracks_view(out@) == arranged.subrange(0, i as int),
            forall|k: int| 0 <= k < i ==> arranged_ok(#[trigger] out@[k].view()),
        decreases n - i,
    {
        let ghost old_src = src@;
        assert(old_src[0].view() == tv[i as int]);
        let t = src.remove(0);
        assert(t == old_src[0]);
        assert(forall|k: int| 0 <= k < src@.len() ==> #[trigger] src@[k] == old_src[k + 1]);
        proof {
            lemma_ascending_from_first(firsts@, i as int);
        }
        let num_sectors = if i + 1 < n {
            assert(firsts@[i as int] <= firsts@[i + 1]);
            firsts[i + 1] - firsts[i]
        } else {
            0
        };
        let nt = Track {
            track_type: t.track_type,
            starting_lba: firsts[i] - firsts[0],
            num_sectors,
            indices: t.indices,
        };
        let ghost old_out = out@;
        out.push(nt);
        assert(nt.view() == arranged[i as int]);
        assert(indices_on_disc(tv[i as int]));
        assert(!lacks_index(tv, i as int));
        if i + 1 < n {
            assert(indices_on_disc(tv[i + 1]));
            assert(!lacks_index(tv, i + 1));
            assert(first_index(tv[i + 1]) < MSF_LBA_LIMIT);
        }
        assert(first_index(tv[i as int]) < MSF_LBA_LIMIT);
        assert(arranged_ok(nt.view()));
        assert(tracks_view(out@) =~= tracks_view(old_out).push(nt.view()));
        assert(arranged.subrange(0, i + 1) =~= arranged.subrange(0, i as int).push(arranged[i as int]));
        i = i + 1;
    }
    assert(arranged.subrange(0, n as int) =~= arranged);
    Ok(out)
}

/// Index just past the last white-space character in `t[..j]`, or 0 when
/// there is none.
pub open spec fn after_last_space(t: Seq<u8>, j: int) -> int
    decreases j,
{
    if j <= 0 {
        0
    } else if space_suffix(t.subrange(0, j)) > 0 {
        j
    } else {
        after_last_space(t, j - 1)
    }
}

/// `FILE "<name>" <mode>`: the name between the only two quotes of the line,
/// the mode the text after its last whitespace.
pub open spec fn file_line(line: Seq<u8>) -> Result<(Seq<u8>, BinMode), CueFault> {
    let t = trim(line);
    let q1 = find_from(t, 34, 0);
    let q2 = find_from(t, 34, q1 + 1);
    let q3 = find_from(t, 34, q2 + 1);
    if q1 >= t.len() || q2 >= t.len() || q3 < t.len() {
        Err(CueFault::FileNameParseError)
    } else {
        match named_bin_mode(t.subrange(after_last_space(t, t.len() as int), t.len() as int)) {
            Ok(m) => Ok((t.subrange(q1 + 1, q2), m)),
            Err(e) => Err(e),
        }
    }
}

/// `TRACK <number> <type>`.
pub open spec fn track_line(line: Seq<u8>) -> Result<(TrackType, nat), CueFault> {
    let tk = tokens(trim(line));
    if tk.len() < 3 {
        Err(CueFault::InvalidTrackLine)
    } else {
        match decimal_in(tk[1], 255) {
            None => Err(CueFault::ParseIntError),
            Some(n) => match named_track_type(tk[2]) {
                Ok(ty) => Ok((ty, n)),
                Err(e) => Err(e),
            },
        }
    }
}

/// `INDEX <number> <MM:SS:FF>`: the number and the position as an LBA.
pub open spec fn index_line(line: Seq<u8>) -> Result<(nat, nat), CueFault> {
    let tk = tokens(trim(line));
    if tk.len() < 3 {
        Err(CueFault::InvalidIndexLine)
    } else {
        match decimal_in(tk[1], 255) {
            None => Err(CueFault::ParseIntError),
            Some(n) => match parse_msf(tk[2]) {
                Ok(f) => Ok((n, msf_lba(f.0, f.1, f.2))),
                Err(e) => Err(CueFault::MsfParseError(e)),
            },
        }
    }
}

/// `PREGAP <MM:SS:FF>`: the length as a number of sectors.
pub open spec fn pregap_line(line: Seq<u8>) -> Result<nat, CueFault> {
    let tk = tokens(trim(line));
    if tk.len() != 2 {
        Err(CueFault::InvalidPregapLine)
    } else {
        match parse_msf(tk[1]) {
            Ok(f) => Ok(msf_lba(f.0, f.1, f.2)),
            Err(e) => Err(CueFault::MsfParseError(e)),
        }
    }
}

fn trimmed_tokens(line: &[u8]) -> (r: Vec<(usize, usize)>)
    ensures
        pieces(line@, r@) == tokens(trim(line@)),
        forall|k: int| 0 <= k < r@.len() ==> #[trigger] r@[k].0 <= r@[k].1 <= line@.len(),
{
    let (a, b) = trim_bounds(line, 0, line.len());
    assert(line@.subrange(0, line@.len() as int) =~= line@);
    split_tokens(line, a, b)
}

pub fn parse_file_line(line: &[u8]) -> (r: Result<(Vec<u8>, BinMode), CueError>)
    ensures
        match file_line(line@) {
            Ok(v) => r is Ok && r->Ok_0.0@ == v.0 && r->Ok_0.1 == v.1,
            Err(e) => r is Err && r->Err_0.view() == e,
        },
{
    let (a, z) = trim_bounds(line, 0, line.len());
    assert(line@.subrange(0, line@.len() as int) =~= line@);
    let ghost t = line@.subrange(a as int, z as int);
    let q1 = find_byte(line, a, z, a, 34);
    if q1 >= z {
        return Err(CueError::FileNameParseError);
    }
    let q2 = find_byte(line, a, z, q1 + 1, 34);
    if q2 >= z {
        return Err(CueError::FileNameParseError);
    }
    let q3 = find_byte(line, a, z, q2 + 1, 34);
    if q3 < z {
        return Err(CueError::FileNameParseError);
    }
    let mut m = z;
    loop
        invariant
            a <= m <= z <= line@.len(),
            t == line@.subrange(a as int, z as int),
            after_last_space(t, t.len() as int) == after_last_space(t, m - a),
        ensures
            a <= m <= z,
            after_last_space(t, t.len() as int) == m - a,
        decreases m - a,
    {
        if m == a {
            break;
        }
        assert(t.subrange(0, m - a) =~= line@.subrange(a as int, m as int));
        if suffix_space(line, a, m) > 0 {
            break;
        }
        m = m - 1;
    }
    assert(t.subrange(m - a, t.len() as int) =~= line@.subrange(m as int, z as int));
    let mode = bin_mode_in(line, m, z);
    match mode {
        Ok(mode) => {
            let name = copy_range(line, q1 + 1, q2);
            assert(t.subrange(q1 + 1 - a, q2 - a) =~= line@.subrange(q1 + 1, q2 as int));
            Ok((name, mode))
        },
        Err(e) => Err(e),
    }
}

pub fn parse_track_line(line: &[u8]) -> (r: Result<(TrackType, u8), CueError>)
    ensures
        match track_line(line@) {
            Ok(v) => r is Ok && r->Ok_0.0 == v.0 && r->Ok_0.1 as nat == v.1,
            Err(e) => r is Err && r->Err_0.view() == e,
        },
{
    let tk = trimmed_tokens(line);
    if tk.len() < 3 {
        return Err(CueError::InvalidTrackLine);
    }
    assert(pieces(line@, tk@)[1] == line@.subrange(tk@[1].0 as int, tk@[1].1 as int));
    assert(pieces(line@, tk@)[2] == line@.subrange(tk@[2].0 as int, tk@[2].1 as int));
    let n = match parse_decimal(line, tk[1].0, tk[1].1, 255) {
        Some(n) => n,
        None => return Err(CueError::ParseIntError),
    };
    match track_type_in(line, tk[2].0, tk[2].1) {
        Ok(ty) => Ok((ty, n as u8)),
        Err(e) => Err(e),
    }
}

pub fn parse_index_line(line: &[u8]) -> (r: Result<(u8, MsfIndex), CueError>)
    ensures
        match index_line(line@) {
            Ok(v) => r is Ok && r->Ok_0.0 as nat == v.0 && r->Ok_0.1.lba() == v.1,
            Err(e) => r is Err && r->Err_0.view() == e,
        },
{
    let tk = trimmed_tokens(line);
    if tk.len() < 3 {
        return Err(CueError::InvalidIndexLine);
    }
    assert(pieces(line@, tk@)[1] == line@.subrange(tk@[1].0 as int, tk@[1].1 as int));
    assert(pieces(line@, tk@)[2] == line@.subrange(tk@[2].0 as int, tk@[2].1 as int));
    let n = match parse_decimal(line, tk[1].0, tk[1].1, 255) {
        Some(n) => n,
        None => return Err(CueError::ParseIntError),
    };
    match MsfIndex::try_from_range(line, tk[2].0, tk[2].1) {
        Ok(msf) => Ok((n as u8, msf)),
        Err(e) => Err(CueError::MsfParseError(e)),
    }
}

pub fn parse_pregap_line(line: &[u8]) -> (r: Result<MsfIndex, CueError>)
    ensures
        match pregap_line(line@) {
            Ok(v) => r is Ok && r->Ok_0.lba() == v,
            Err(e) => r is Err && r->Err_0.view() == e,
        },
{
    let tk = trimmed_tokens(line);
    if tk.len() != 2 {
        return Err(CueError::InvalidPregapLine);
    }
    assert(pieces(line@, tk@)[1] == line@.subrange(tk@[1].0 as int, tk@[1].1 as int));
    match MsfIndex::try_from_range(line, tk[1].0, tk[1].1) {
        Ok(msf) => Ok(msf),
        Err(e) => Err(CueError::MsfParseError(e)),
    }
}

/// What a line of a cue sheet asks for, by its upper-cased first word.
pub enum Directive {
    File,
    Track,
    Index,
    Pregap,
    /// Known and without effect: FLAGS, CDTEXTFILE, CATALOG, PERFORMER,
    /// TITLE, ISRC, REM.
    Accepted,
    Unknown,
}

pub open spec fn directive_of(u: Seq<u8>) -> Directive {
    if u == seq![70u8, 73, 76, 69] {
        Directive::File
    } else if u == seq![84u8, 82, 65, 67, 75] {
        Directive::Track
    } else if u == seq![73u8, 78, 68, 69, 88] {
        Directive::Index
    } else if u == seq![80u8, 82, 69, 71, 65, 80] {
        Directive::Pregap
    } else if u == seq![70u8, 76, 65, 71, 83] || u == seq![67u8, 68, 84, 69, 88, 84, 70, 73, 76, 69]
        || u == seq![67u8, 65, 84, 65, 76, 79, 71] || u == seq![80u8, 69, 82, 70, 79, 82, 77, 69, 82]
        || u == seq![84u8, 73, 84, 76, 69] || u == seq![73u8, 83, 82, 67] || u == seq![82u8, 69, 77] {
        Directive::Accepted
    } else {
        Directive::Unknown
    }
}

fn directive_from_upper(u: &Vec<u8>) -> (r: Directive)
    ensures
        r == directive_of(u@),
{
    if keyword_is(u, vec![70u8, 73, 76, 69]) {
        Directive::File
    } else if keyword_is(u, vec![84u8, 82, 65, 67, 75]) {
        Directive::Track
    } else if keyword_is(u, vec![73u8, 78, 68, 69, 88]) {
        Directive::Index
    } else if keyword_is(u, vec![80u8, 82, 69, 71, 65, 80]) {
        Directive::Pregap
    } else if keyword_is(u, vec![70u8, 76, 65, 71, 83]) || keyword_is(
        u,
        vec![67u8, 68, 84, 69, 88, 84, 70, 73, 76, 69],
    ) || keyword_is(u, vec![67u8, 65, 84, 65, 76, 79, 71]) || keyword_is(
        u,
        vec![80u8, 69, 82, 70, 79, 82, 77, 69, 82],
    ) || keyword_is(u, vec![84u8, 73, 84, 76, 69]) || keyword_is(u, vec![73u8, 83, 82, 67])
        || keyword_is(u, vec![82u8, 69, 77]) {
        Directive::Accepted
    } else {
        Directive::Unknown
    }
}

/// A file of a cue sheet as its lines describe it.
pub struct CueFile {
    pub name: Vec<u8>,
    pub bin_mode: BinMode,
    pub tracks: Vec<Track>,
}

pub struct CueFileView {
    pub name: Seq<u8>,
    pub mode: BinMode,
    pub tracks: Seq<TrackView>,
}

impl CueFile {
    pub open spec fn view(&self) -> CueFileView {
        CueFileView { name: self.name@, mode: self.bin_mode, tracks: tracks_view(self.tracks@) }
    }
}

pub open spec fn files_view(fs: Seq<CueFile>) -> Seq<CueFileView> {
    fs.map_values(|f: CueFile| f.view())
}

/// Where reading a cue sheet stands between two lines.
pub struct ParseView {
    /// Files whose tracks are complete.
    pub files: Seq<CueFileView>,
    /// Name and mode of the file being described.
    pub file: Option<(Seq<u8>, BinMode)>,
    /// Its complete tracks.
    pub tracks: Seq<TrackView>,
    /// The track being described.
    pub track: Option<TrackView>,
    /// Number of the last track seen.
    pub number: nat,
}

pub open spec fn start_view() -> ParseView {
    ParseView { files: Seq::empty(), file: None, tracks: Seq::empty(), track: None, number: 0 }
}

pub open spec fn with_track(ts: Seq<TrackView>, t: Option<TrackView>) -> Seq<TrackView> {
    match t {
        Some(x) => ts.push(x),
        None => ts,
    }
}

/// The files so far, with the one being described closed.
pub open spec fn close_file(st: ParseView) -> Result<Seq<CueFileView>, CueFault> {
    match st.file {
        None => Ok(st.files),
        Some(f) => match arrange(with_track(st.tracks, st.track)) {
            Ok(ts) => Ok(st.files.push(CueFileView { name: f.0, mode: f.1, tracks: ts })),
            Err(e) => Err(e),
        },
    }
}

/// The effect of one line.
pub open spec fn step(st: ParseView, line: Seq<u8>) -> Result<ParseView, CueFault> {
    let tk = tokens(line);
    if tk.len() == 0 {
        Ok(st)
    } else {
        let cmd = upper_seq(tk[0]);
        match directive_of(cmd) {
            Directive::File => match close_file(st) {
                Err(e) => Err(e),
                Ok(files) => match file_line(line) {
                    Ok(f) => Ok(
                        ParseView {
                            files,
                            file: Some(f),
                            tracks: Seq::empty(),
                            track: None,
                            number: st.number,
                        },
                    ),
                    Err(e) => Err(e),
                },
            },
            Directive::Track => if st.file is None {
                Err(CueFault::TrackCommandWithoutBinFile)
            } else {
                match track_line(line) {
                    Err(e) => Err(e),
                    Ok(t) => if t.1 != st.number + 1 {
                        Err(CueFault::InvalidTrackNumber)
                    } else {
                        Ok(
                            ParseView {
                                tracks: with_track(st.tracks, st.track),
                                track: Some(
                                    TrackView {
                                        track_type: t.0,
                                        starting_lba: 0,
                                        num_sectors: 0,
                                        indices: Map::empty(),
                                    },
                                ),
                                number: t.1,
                                ..st
                            },
                        )
                    },
                }
            },
            Directive::Index => match st.track {
                None => Err(CueFault::IndexCommandWithoutTrack),
                Some(t) => match index_line(line) {
                    Err(e) => Err(e),
                    Ok(ix) => if ix.0 == 0 && t.indices.contains_key(0) {
                        Err(CueFault::InvalidIndexNumber)
                    } else {
                        Ok(
                            ParseView {
                                track: Some(
                                    TrackView {
                                        indices: t.indices.insert(ix.0 as usize, ix.1 as u32),
                                        ..t
                                    },
                                ),
                                ..st
                            },
                        )
                    },
                },
            },
            Directive::Pregap | Directive::Accepted => Ok(st),
            Directive::Unknown => Err(CueFault::InvalidCommandError(cmd)),
        }
    }
}

/// The effect of a sequence of lines.
pub open spec fn run(lines: Seq<Seq<u8>>, st: ParseView) -> Result<ParseView, CueFault>
    decreases lines.len(),
{
    if lines.len() == 0 {
        Ok(st)
    } else {
        match step(st, lines[0]) {
            Ok(next) => run(lines.drop_first(), next),
            Err(e) => Err(e),
        }
    }
}

/// The files once the last line has been read.
pub open spec fn finish(st: ParseView) -> Result<Seq<CueFileView>, CueFault> {
    match st.file {
        None => Err(CueFault::NoBinFiles),
        Some(f) => match st.track {
            None => Err(CueFault::NoTracks),
            Some(_) => close_file(st),
        },
    }
}

/// The files that a cue sheet describes.
pub open spec fn cue_files(text: Seq<u8>) -> Result<Seq<CueFileView>, CueFault> {
    match run(lines_of(text), start_view()) {
        Ok(st) => finish(st),
        Err(e) => Err(e),
    }
}

struct ParseState {
    files: Vec<CueFile>,
    file: Option<(Vec<u8>, BinMode)>,
    tracks: Vec<Track>,
    track: Option<Track>,
    number: u8,
}

impl ParseState {
    spec fn view(&self) -> ParseView {
        ParseView {
            files: files_view(self.files@),
            file: match self.file {
                Some(f) => Some((f.0@, f.1)),
                None => None,
            },
            tracks: tracks_view(self.tracks@),
            track: match self.track {
                Some(t) => Some(t.view()),
                None => None,
            },
            number: self.number as nat,
        }
    }

    spec fn inv(&self) -> bool {
        &&& forall|i: int| 0 <= i < self.tracks@.len() ==> indices_on_disc(#[trigger] self.tracks@[i].view())
        &&& match self.track {
            Some(t) => indices_on_disc(t.view()),
            None => true,
        }
        &&& forall|f: int| 0 <= f < self.files@.len() ==> 0 < (#[trigger] self.files@[f]).tracks@.len() <= 255
            && laid_out(tracks_view(self.files@[f].tracks@))
        &&& forall|f: int, t: int|
            0 <= f < self.files@.len() && 0 <= t < self.files@[f].tracks@.len() ==> arranged_ok(
                #[trigger] self.files@[f].tracks@[t].view(),
            )
        &&& self.files@.len() + self.tracks@.len() + (if self.track is Some { 1int } else { 0 }) <= self.number
    }

    /// Closes the file being described, if there is one.
    fn close_file(&mut self) -> (r: Result<(), CueError>)
        requires
            old(self).inv(),
        ensures
            match close_file(old(self).view()) {
                Ok(files) => r is Ok && final(self).view() == ParseView {
                    files,
                    file: None,
                    tracks: Seq::empty(),
                    track: None,
                    ..old(self).view()
                },
                Err(e) => r is Err && r->Err_0.view() == e,
            },
            final(self).inv(),
    {
        let file = self.file.take();
        let track = self.track.take();
        let mut tracks: Vec<Track> = Vec::new();
        std::mem::swap(&mut tracks, &mut self.tracks);
        assert(tracks_view(self.tracks@) =~= Seq::<TrackView>::empty());
        match file {
            None => {
                assert(self.view().files == old(self).view().files);
                assert(self.files@ == old(self).files@);
                assert(self.files@.len() + self.tracks@.len() + (if self.track is Some { 1int } else { 0 }) <= self.number);
                Ok(())
            },
            Some(f) => {
                let ghost before = tracks_view(tracks@);
                match track {
                    Some(t) => {
                        tracks.push(t);
                        assert(tracks_view(tracks@) =~= before.push(t.view()));
                    },
                    None => {},
                }
                let ghost n_in = tracks@.len();
                assert(n_in + old(self).files@.len() <= old(self).number);
                assert(tracks_view(tracks@).len() == n_in);
                let arranged = arrange_tracks(tracks);
                match arranged {
                    Ok(ts) => {
                        assert(tracks_view(ts@).len() == n_in);
                        assert(n_in > 0);
                        let ghost old_files = files_view(self.files@);
                        let cf = CueFile { name: f.0, bin_mode: f.1, tracks: ts };
                        let ghost old_fs = self.files@;
                        self.files.push(cf);
                        assert(forall|k: int| 0 <= k < old_fs.len() ==> #[trigger] self.files@[k] == old_fs[k]);
                        assert(files_view(self.files@) =~= old_files.push(cf.view()));
                        Ok(())
                    },
                    Err(e) => {
                        assert(self.files@ == old(self).files@);
                        Err(e)
                    },
                }
            },
        }
    }

    /// Applies one line.
    fn step(&mut self, line: &[u8]) -> (r: Result<(), CueError>)
        requires
            old(self).inv(),
        ensures
            match step(old(self).view(), line@) {
                Ok(next) => r is Ok && final(self).view() == next,
                Err(e) => r is Err && r->Err_0.view() == e,
            },
            final(self).inv(),
    {
        let tk = split_tokens(line, 0, line.len());
        assert(line@.subrange(0, line@.len() as int) =~= line@);
        if tk.len() == 0 {
            return Ok(());
        }
        let cmd = upper_range(line, tk[0].0, tk[0].1);
        assert(pieces(line@, tk@)[0] == line@.subrange(tk@[0].0 as int, tk@[0].1 as int));
        match directive_from_upper(&cmd) {
            Directive::File => {
                match self.close_file() {
                    Ok(()) => {},
                    Err(e) => return Err(e),
                }
                match parse_file_line(line) {
                    Ok(f) => {
                        self.file = Some(f);
                        Ok(())
                    },
                    Err(e) => Err(e),
                }
            },
            Directive::Track => {
                if self.file.is_none() {
                    return Err(CueError::TrackCommandWithoutBinFile);
                }
                match parse_track_line(line) {
                    Err(e) => Err(e),
                    Ok((ty, n)) => {
                        if self.number == 255 || n != self.number + 1 {
                            return Err(CueError::InvalidTrackNumber);
                        }
                        let ghost before = tracks_view(self.tracks@);
                        match self.track.take() {
                            Some(t) => {
                                self.tracks.push(t);
                                assert(tracks_view(self.tracks@) =~= before.push(t.view()));
                            },
                            None => {},
                        }
                        let nt = Track {
                            track_type: ty,
                            starting_lba: 0,
                            num_sectors: 0,
                            indices: index_map_new(),
                        };
                        assert(nt.view().indices =~= Map::<usize, u32>::empty());
                        self.track = Some(nt);
                        self.number = n;
                        Ok(())
                    },
                }
            },
            Directive::Index => {
                if self.track.is_none() {
                    return Err(CueError::IndexCommandWithoutTrack);
                }
                match parse_index_line(line) {
                    Err(e) => Err(e),
                    Ok((n, msf)) => {
                        let mut t = self.track.take().unwrap();
                        if n == 0 && index_map_get(&t.indices, 0).is_some() {
                            return Err(CueError::InvalidIndexNumber);
                        }
                        let lba = msf.to_lba();
                        index_map_insert(&mut t.indices, n as usize, lba);
                        self.track = Some(t);
                        Ok(())
                    },
                }
            },
            Directive::Pregap | Directive::Accepted => Ok(()),
            Directive::Unknown => Err(CueError::InvalidCommandError(cmd)),
        }
    }
}

/// Reads a cue sheet into the files it describes, each with its tracks laid
/// out; the length of each file's last track is left at 0 until the file's
/// size is known.
pub fn parse_cue(text: &[u8]) -> (r: Result<Vec<CueFile>, CueError>)
    ensures
        match cue_files(text@) {
            Ok(fs) => r is Ok && files_view(r->Ok_0@) == fs,
            Err(e) => r is Err && r->Err_0.view() == e,
        },
        r is Ok ==> files_ok(files_view(r->Ok_0@)),
{
    let lines = split_lines(text);
    let ghost all = lines_of(text@);
    let mut st = ParseState {
        files: Vec::new(),
        file: None,
        tracks: Vec::new(),
        track: None,
        number: 0,
    };
    assert(st.view().files =~= Seq::<CueFileView>::empty());
    assert(st.view().tracks =~= Seq::<TrackView>::empty());
    assert(st.view() == start_view());
    assert(all.subrange(0, all.len() as int) =~= all);
    assert(forall|j: int| 0 <= j < lines@.len() ==> #[trigger] lines@[j].0 <= lines@[j].1 <= text@.len());
    assert(st.inv());
    assert(run(all, start_view()) == run(all.subrange(0, all.len() as int), st.view()));
    let mut k: usize = 0;
    while k < lines.len()
        invariant
            k <= lines@.len() == all.len(),
            all == pieces(text@, lines@),
            all == lines_of(text@),
            forall|j: int| 0 <= j < lines@.len() ==> #[trigger] lines@[j].0 <= lines@[j].1 <= text@.len(),
            st.inv(),
            run(all, start_view()) == run(all.subrange(k as int, all.len() as int), st.view()),
        decreases lines@.len() - k,
    {
        let (a, b) = lines[k];
        let line = &text[a..b];
        let ghost rest = all.subrange(k as int, all.len() as int);
        assert(rest[0] == line@);
        assert(rest.drop_first() =~= all.subrange(k + 1, all.len() as int));
        let ghost sv = st.view();
        assert(run(rest, sv) == match step(sv, rest[0]) {
            Ok(next) => run(rest.drop_first(), next),
            Err(e) => Err(e),
        });
        match st.step(line) {
            Ok(()) => {},
            Err(e) => {
                assert(run(rest, sv) == Err::<ParseView, CueFault>(e.view()));
                assert(run(all, start_view()) == Err::<ParseView, CueFault>(e.view()));
                return Err(e);
            },
        }
        k = k + 1;
    }
    assert(all.subrange(k as int, all.len() as int) =~= Seq::<Seq<u8>>::empty());
    if st.file.is_none() {
        return Err(CueError::NoBinFiles);
    }
    if st.track.is_none() {
        return Err(CueError::NoTracks);
    }
    match st.close_file() {
        Ok(()) => {
            let ghost fv = files_view(st.files@);
            assert(forall|f: int| 0 <= f < fv.len() ==> #[trigger] fv[f] == st.files@[f].view());
            Ok(st.files)
        },
        Err(e) => Err(e),
    }
}

/// Sectors before the first readable one: the first track's pregap, which no
/// file holds.
pub const FIRST_TRACK_PREGAP: u32 = 150;

/// A file of raw sectors with its tracks.
pub struct BinFile {
    pub bin_mode: BinMode,
    /// Whole sectors in the file.
    pub num_sectors: u32,
    pub tracks: Vec<Track>,
}

/// Position on a cue sheet's disc.
#[derive(Clone, Copy, Debug, PartialEq, Eq, Structural)]
pub struct Location {
    pub bin_file_no: usize,
    pub track_in_bin: usize,
    pub global_lba: u32,
    /// Sector within the file (not within the track).
    pub bin_local_lba: u32,
}

impl Default for Location {
    /// The first sector past the first track's pregap.
    fn default() -> (r: Location)
        ensures
            r == (Location { bin_file_no: 0, track_in_bin: 0, global_lba: FIRST_TRACK_PREGAP, bin_local_lba: 0 }),
    {
        Location { bin_file_no: 0, track_in_bin: 0, global_lba: FIRST_TRACK_PREGAP, bin_local_lba: 0 }
    }
}

pub open spec fn track_ok(t: TrackView) -> bool {
    &&& has_index(t)
    &&& indices_on_disc(t)
    &&& t.starting_lba + t.num_sectors <= u32::MAX
}

pub open spec fn bins_ok(bins: Seq<BinFile>) -> bool {
    &&& 0 < bins.len() <= 255
    &&& forall|b: int| 0 <= b < bins.len() ==> 0 < (#[trigger] bins[b]).tracks@.len() <= 255
    &&& forall|b: int, t: int|
        0 <= b < bins.len() && 0 <= t < bins[b].tracks@.len() ==> track_ok(
            #[trigger] bins[b].tracks@[t].view(),
        )
}

pub open spec fn location_ok(bins: Seq<BinFile>, l: Location) -> bool {
    l.bin_file_no < bins.len() && l.track_in_bin < bins[l.bin_file_no as int].tracks@.len()
}

/// The track of a file that holds sector `left` when the file's tracks are
/// counted off one after another from track `i`, if one does.
pub open spec fn track_hit(ts: Seq<Track>, i: int, left: nat) -> Option<int>
    decreases ts.len() - i,
{
    if i < 0 || i >= ts.len() {
        None
    } else if ts[i].num_sectors > left {
        Some(i)
    } else {
        track_hit(ts, i + 1, (left - ts[i].num_sectors) as nat)
    }
}

/// What is left of `left` once the tracks from `i` on are counted off.
pub open spec fn track_rest(ts: Seq<Track>, i: int, left: nat) -> nat
    decreases ts.len() - i,
{
    if i < 0 || i >= ts.len() {
        left
    } else if ts[i].num_sectors > left {
        left
    } else {
        track_rest(ts, i + 1, (left - ts[i].num_sectors) as nat)
    }
}

/// Where sector `left` past the pregap lies, counting from file `b`: the first
/// file longer than what is left, and in it the track found by counting off its
/// tracks; the position in the file is what was left on entering it.
pub open spec fn locate(bins: Seq<BinFile>, b: int, left: nat) -> Option<Location>
    decreases bins.len() - b,
{
    if b < 0 || b >= bins.len() {
        None
    } else if bins[b].num_sectors > left {
        match track_hit(bins[b].tracks@, 0, left) {
            Some(t) => Some(
                Location {
                    bin_file_no: b as usize,
                    track_in_bin: t as usize,
                    global_lba: 0,
                    bin_local_lba: left as u32,
                },
            ),
            None => locate(bins, b + 1, track_rest(bins[b].tracks@, 0, left)),
        }
    } else {
        locate(bins, b + 1, (left - bins[b].num_sectors) as nat)
    }
}

/// Number of tracks in the files before file `b`.
pub open spec fn tracks_before(bins: Seq<BinFile>, b: int) -> nat
    decreases b,
{
    if b <= 0 || bins.len() == 0 {
        0
    } else {
        tracks_before(bins, b - 1) + bins[b - 1].tracks@.len()
    }
}

/// Number of sectors in the files before file `b`.
pub open spec fn sectors_before(bins: Seq<BinFile>, b: int) -> nat
    decreases b,
{
    if b <= 0 || bins.len() == 0 {
        0
    } else {
        sectors_before(bins, b - 1) + bins[b - 1].num_sectors as nat
    }
}

/// The file and track in it of track number `n`, counting from 1 over all
/// files, starting the search at file `b`.
pub open spec fn track_place(bins: Seq<BinFile>, b: int, n: nat) -> Option<(int, int)>
    decreases bins.len() - b,
{
    if b < 0 || b >= bins.len() {
        None
    } else if bins[b].tracks@.len() + tracks_before(bins, b) >= n {
        Some((b, n - tracks_before(bins, b) - 1))
    } else {
        track_place(bins, b + 1, n)
    }
}

/// Disc position of index 1 of track `n` (`n` at least 1): the sectors of the
/// files before it, the index's position in its file, and the pregap.
pub open spec fn track_start_lba(bins: Seq<BinFile>, n: nat) -> Option<nat> {
    match track_place(bins, 0, n) {
        Some(p) => Some(
            sectors_before(bins, p.0) + index_one(bins[p.0].tracks@[p.1].view())
                + FIRST_TRACK_PREGAP as nat,
        ),
        None => None,
    }
}

/// Where a disc position lies: in the pregap before the first file, or where
/// `locate` finds it.
pub open spec fn placed(bins: Seq<BinFile>, lba: nat) -> Option<Location> {
    if lba < FIRST_TRACK_PREGAP {
        Some(Location { bin_file_no: 0, track_in_bin: 0, global_lba: lba as u32, bin_local_lba: 0 })
    } else {
        match locate(bins, 0, (lba - FIRST_TRACK_PREGAP) as nat) {
            Some(l) => Some(Location { global_lba: lba as u32, ..l }),
            None => None,
        }
    }
}

/// Disc position of a track's index 1; track 0 stands for the end of the disc.
pub open spec fn track_start_pos(bins: Seq<BinFile>, n: nat) -> Option<nat> {
    if n == 0 {
        Some(sectors_before(bins, bins.len() as int) + FIRST_TRACK_PREGAP as nat)
    } else {
        track_start_lba(bins, n)
    }
}

/// A time code for a disc position, with `OutOfRange` past `99:59:74`.
pub open spec fn msf_result_ok(r: Result<MsfIndex, ImageError>, lba: nat) -> bool {
    if lba < MSF_LBA_LIMIT {
        r is Ok && r->Ok_0.lba() == lba
    } else {
        r == Err::<MsfIndex, ImageError>(ImageError::MsfIndexError(MsfIndexError::OutOfRangeError))
    }
}

pub(crate) fn msf_of(lba: u64) -> (r: Result<MsfIndex, ImageError>)
    ensures
        msf_result_ok(r, lba as nat),
{
    if lba >= MSF_LBA_LIMIT as u64 {
        return Err(ImageError::MsfIndexError(MsfIndexError::OutOfRangeError));
    }
    match MsfIndex::from_lba(lba as u32) {
        Ok(m) => {
            proof {
                MsfIndex::lemma_lba_round_trip(m);
                let (a, b, c) = (m.minutes(), m.seconds(), m.frames());
                assert(lba_fields(lba as nat) == m.fields());
                lemma_lba_of_fields(lba as nat);
            }
            Ok(m)
        },
        Err(e) => Err(ImageError::MsfIndexError(e)),
    }
}

pub(crate) proof fn lemma_lba_of_fields(n: nat)
    ensures
        msf_lba(lba_fields(n).0, lba_fields(n).1, lba_fields(n).2) == n,
{
    let (m, s, f) = lba_fields(n);
    assert(((n / 4500) * 60 + n % 4500 / 75) * 75 + n % 75 == n) by (nonlinear_arith) {
        vstd::arithmetic::div_mod::lemma_fundamental_div_mod(n as int, 4500);
        vstd::arithmetic::div_mod::lemma_fundamental_div_mod((n % 4500) as int, 75);
        vstd::arithmetic::div_mod::lemma_mod_mod(n as int, 75, 60);
    }
}

/// A file's size reaches the first index of its last track.
pub open spec fn counts_fit(fs: Seq<CueFileView>, counts: Seq<u32>) -> bool {
    forall|f: int| 0 <= f < fs.len() ==> first_index((#[trigger] fs[f]).tracks.last()) <= counts[f]
}

/// The last track of a file of `count` sectors, running to the file's end.
pub open spec fn last_track_to(t: TrackView, count: nat) -> TrackView {
    TrackView { num_sectors: (count - first_index(t)) as nat, ..t }
}

/// A file of the disc as made from a file of the cue sheet and its size.
pub open spec fn bin_from(b: BinFile, f: CueFileView, count: u32) -> bool {
    &&& b.bin_mode == f.mode
    &&& b.num_sectors == count
    &&& tracks_view(b.tracks@) == f.tracks.update(
        f.tracks.len() - 1,
        last_track_to(f.tracks.last(), count as nat),
    )
}

pub open spec fn bins_from(bins: Seq<BinFile>, fs: Seq<CueFileView>, counts: Seq<u32>) -> bool {
    &&& bins.len() == fs.len()
    &&& forall|f: int| 0 <= f < fs.len() ==> bin_from(#[trigger] bins[f], fs[f], counts[f])
}

/// The next position and what stepping there ran into. In the pregap the
/// position moves on alone; inside a file, leaving the current track's sectors
/// moves to the next track of the file, or to the start of the next file; past
/// the last track of the last file the disc has ended. At the largest
/// positions that can be held the disc has ended and nothing moves.
pub open spec fn advanced(bins: Seq<BinFile>, l: Location) -> (Location, Option<Event>) {
    let t = bins[l.bin_file_no as int].tracks@[l.track_in_bin as int];
    if l.global_lba < FIRST_TRACK_PREGAP {
        (Location { global_lba: (l.global_lba + 1) as u32, ..l }, None)
    } else if l.global_lba == u32::MAX || l.bin_local_lba == u32::MAX {
        (l, Some(Event::EndOfDisc))
    } else if l.bin_local_lba + 1 < t.starting_lba + t.num_sectors {
        (
            Location {
                global_lba: (l.global_lba + 1) as u32,
                bin_local_lba: (l.bin_local_lba + 1) as u32,
                ..l
            },
            None,
        )
    } else if l.track_in_bin + 1 < bins[l.bin_file_no as int].tracks@.len() {
        (
            Location {
                track_in_bin: (l.track_in_bin + 1) as usize,
                global_lba: (l.global_lba + 1) as u32,
                bin_local_lba: (l.bin_local_lba + 1) as u32,
                ..l
            },
            Some(Event::TrackChange),
        )
    } else if l.bin_file_no + 1 < bins.len() {
        (
            Location {
                bin_file_no: (l.bin_file_no + 1) as usize,
                track_in_bin: 0,
                global_lba: (l.global_lba + 1) as u32,
                bin_local_lba: 0,
            },
            Some(Event::TrackChange),
        )
    } else {
        (
            Location {
                global_lba: (l.global_lba + 1) as u32,
                bin_local_lba: (l.bin_local_lba + 1) as u32,
                ..l
            },
            Some(Event::EndOfDisc),
        )
    }
}

/// The position lies past the pregap on its track, at the file offset that
/// its disc position gives.
pub open spec fn on_track(bins: Seq<BinFile>, l: Location) -> bool {
    &&& location_ok(bins, l)
    &&& l.global_lba >= FIRST_TRACK_PREGAP
    &&& l.global_lba == FIRST_TRACK_PREGAP + sectors_before(bins, l.bin_file_no as int) + l.bin_local_lba
    &&& bins[l.bin_file_no as int].tracks@[l.track_in_bin as int].starting_lba <= l.bin_local_lba
    &&& l.bin_local_lba < bins[l.bin_file_no as int].tracks@[l.track_in_bin as int].starting_lba
        + bins[l.bin_file_no as int].tracks@[l.track_in_bin as int].num_sectors
}

/// Every track holds at least one sector.
pub open spec fn no_empty_tracks(bins: Seq<BinFile>) -> bool {
    forall|b: int, t: int|
        0 <= b < bins.len() && 0 <= t < bins[b].tracks@.len() ==> (#[trigger] bins[b].tracks@[t]).num_sectors
            > 0
}

/// A disc assembled from the files of a cue sheet, with a current position.
pub struct Cuesheet {
    bin_files: Vec<BinFile>,
    location: Location,
    invalid_subq_lbas: Option<BTreeSet<u32>>,
}

impl Cuesheet {
    #[verifier::type_invariant]
    spec fn well_formed(self) -> bool {
        bins_ok(self.bin_files@) && location_ok(self.bin_files@, self.location)
    }

    pub closed spec fn bins(&self) -> Seq<BinFile> {
        self.bin_files@
    }

    pub closed spec fn location(&self) -> Location {
        self.location
    }

    /// The sectors whose subchannel Q data is reported invalid, if a list was given.
    pub closed spec fn invalid_subq(&self) -> Option<Set<u32>> {
        match self.invalid_subq_lbas {
            Some(s) => Some(s@),
            None => None,
        }
    }

    pub open spec fn current_track_view(&self) -> TrackView {
        self.bins()[self.location().bin_file_no as int].tracks@[self.location().track_in_bin as int].view()
    }

    /// Assembles a disc from the files of a cue sheet and the number of whole
    /// sectors in each; the last track of each file runs to the file's end.
    /// The position starts at the first sector past the pregap.
    pub fn from_files(
        files: Vec<CueFile>,
        sector_counts: &Vec<u32>,
        invalid_subq_lbas: Option<BTreeSet<u32>>,
    ) -> (r: Result<Cuesheet, CueError>)
        requires
            files_ok(files_view(files@)),
            files@.len() == sector_counts@.len(),
        ensures
            !counts_fit(files_view(files@), sector_counts@) ==> r is Err && r->Err_0.view()
                == CueFault::InvalidIndexNumber,
            counts_fit(files_view(files@), sector_counts@) && (forall|f: int|
                0 <= f < files@.len() ==> first_index((#[trigger] files_view(files@)[f]).tracks[0]) == 0)
                ==> tracks_cover_files(r->Ok_0.bins()),
            counts_fit(files_view(files@), sector_counts@) ==> r is Ok && bins_from(
                r->Ok_0.bins(),
                files_view(files@),
                sector_counts@,
            ) && r->Ok_0.location() == (Location {
                bin_file_no: 0,
                track_in_bin: 0,
                global_lba: FIRST_TRACK_PREGAP,
                bin_local_lba: 0,
            }) && r->Ok_0.invalid_subq() == match invalid_subq_lbas {
                Some(s) => Some(s@),
                None => None::<Set<u32>>,
            },
    {
        let ghost fv = files_view(files@);
        assert(forall|f: int| 0 <= f < files@.len() ==> #[trigger] fv[f] == files@[f].view());
        let n = files.len();
        let mut src = files;
        let mut bins: Vec<BinFile> = Vec::new();
        let mut i: usize = 0;
        while i < n
            invariant
                i <= n == fv.len() == sector_counts@.len(),
                fv == files_view(files@),
                files_ok(fv),
                src@.len() == n - i,
                forall|k: int| 0 <= k < src@.len() ==> #[trigger] src@[k].view() == fv[k + i],
                forall|f: int| 0 <= f < i ==> first_index(fv[f].tracks.last()) <= sector_counts@[f],
                bins@.len() == i,
                forall|f: int| 0 <= f < i ==> bin_from(#[trigger] bins@[f], fv[f], sector_counts@[f]),
            decreases n - i,
        {
            let ghost old_src = src@;
            let cf = src.remove(0);
            assert(cf.view() == fv[i as int]);
            assert(forall|k: int| 0 <= k < src@.len() ==> #[trigger] src@[k] == old_src[k + 1]);
            let count = sector_counts[i];
            let mut tracks = cf.tracks;
            let ghost tv = tracks_view(tracks@);
            assert(0 < tv.len());
            let last = tracks.pop().unwrap();
            assert(last.view() == tv.last());
            assert(arranged_ok(tv.last()));
            let first = last.first_index_lba();
            if count < first {
                assert(!counts_fit(fv, sector_counts@));
                return Err(CueError::InvalidIndexNumber);
            }
            let ghost before = tracks_view(tracks@);
            tracks.push(Track {
                track_type: last.track_type,
                starting_lba: last.starting_lba,
                num_sectors: count - first,
                indices: last.indices,
            });
            let bin = BinFile { bin_mode: cf.bin_mode, num_sectors: count, tracks };
            assert(tracks_view(bin.tracks@) =~= tv.update(tv.len() - 1, last_track_to(tv.last(), count as nat)));
            bins.push(bin);
            i = i + 1;
        }
        proof {
            lemma_bins_ok(bins@, fv, sector_counts@);
            if forall|f: int| 0 <= f < files@.len() ==> first_index((#[trigger] fv[f]).tracks[0]) == 0 {
                lemma_bins_cover(bins@, fv, sector_counts@);
            }
        }
        let sheet = Cuesheet { bin_files: bins, location: Location::default(), invalid_subq_lbas };
        Ok(sheet)
    }

    pub fn num_tracks(&self) -> (r: usize)
        ensures
            r == tracks_before(self.bins(), self.bins().len() as int) || (r == usize::MAX
                && tracks_before(self.bins(), self.bins().len() as int) >= usize::MAX),
    {
        let mut n: usize = 0;
        let mut b: usize = 0;
        while b < self.bin_files.len()
            invariant
                b <= self.bins().len(),
                self.bins() == self.bin_files@,
                n == tracks_before(self.bins(), b as int) || (n == usize::MAX && tracks_before(
                    self.bins(),
                    b as int,
                ) >= usize::MAX),
            decreases self.bins().len() - b,
        {
            let k = self.bin_files[b].tracks.len();
            n = if n > usize::MAX - k {
                usize::MAX
            } else {
                n + k
            };
            b = b + 1;
        }
        n
    }

    pub fn current_subchannel_q_valid(&self) -> (r: bool)
        ensures
            r == match self.invalid_subq() {
                Some(s) => !s.contains(self.location().global_lba),
                None => true,
            },
    {
        broadcast use vstd::std_specs::btree::group_btree_axioms, vstd::laws_cmp::group_laws_cmp;
        match &self.invalid_subq_lbas {
            Some(set) => !set.contains(&self.location.global_lba),
            None => true,
        }
    }

    /// Number of the current track, counting from 1 over all files.
    pub fn current_track(&self) -> (r: Result<u8, ImageError>)
        ensures
            tracks_before(self.bins(), self.location().bin_file_no as int)
                + self.location().track_in_bin + 1 <= 255 ==> r == Ok::<u8, ImageError>(
                (tracks_before(self.bins(), self.location().bin_file_no as int)
                    + self.location().track_in_bin + 1) as u8,
            ),
            tracks_before(self.bins(), self.location().bin_file_no as int)
                + self.location().track_in_bin + 1 > 255 ==> r == Err::<u8, ImageError>(
                ImageError::OutOfRange,
            ),
    {
        proof {
            use_type_invariant(self);
        }
        let mut n: usize = 0;
        let mut b: usize = 0;
        while b < self.location.bin_file_no
            invariant
                b <= self.location.bin_file_no < self.bins().len(),
                self.bins() == self.bin_files@,
                n == tracks_before(self.bins(), b as int),
                n <= 255,
            decreases self.location.bin_file_no - b,
        {
            let k = self.bin_files[b].tracks.len();
            if k > 255 - n {
                proof {
                    lemma_tracks_before_grows(self.bins(), b as int + 1, self.location.bin_file_no as int);
                }
                return Err(ImageError::OutOfRange);
            }
            n = n + k;
            b = b + 1;
        }
        if self.location.track_in_bin >= 255 - n {
            return Err(ImageError::OutOfRange);
        }
        Ok((n + self.location.track_in_bin + 1) as u8)
    }

    /// 1 from index 1 of the current track on, 0 before it (a lone track
    /// without index 1 counts from its index 0).
    pub fn current_index(&self) -> (r: Result<u8, ImageError>)
        ensures
            r == Ok::<u8, ImageError>(
                if self.location().bin_local_lba >= index_one(self.current_track_view()) {
                    1
                } else {
                    0
                },
            ),
    {
        proof {
            use_type_invariant(self);
        }
        let t = &self.bin_files[self.location.bin_file_no].tracks[self.location.track_in_bin];
        assert(t.view() == self.current_track_view());
        let index_one = t.index_one_lba();
        if self.location.bin_local_lba >= index_one {
            Ok(1)
        } else {
            Ok(0)
        }
    }

    /// Position relative to index 1 of the current track; before it, the
    /// distance counts down from `100:00:00`.
    pub fn current_track_local_msf(&self) -> (r: Result<MsfIndex, ImageError>)
        ensures
            ({
                let t = self.current_track_view();
                let local = self.location().bin_local_lba as int;
                let one = index_one(t) as int;
                if local < t.starting_lba || one < t.starting_lba {
                    r == Err::<MsfIndex, ImageError>(ImageError::OutOfRange)
                } else if local < one {
                    msf_result_ok(r, (MSF_LBA_LIMIT - (one - local)) as nat)
                } else {
                    msf_result_ok(r, (local - one) as nat)
                }
            }),
    {
        proof {
            use_type_invariant(self);
        }
        let t = &self.bin_files[self.location.bin_file_no].tracks[self.location.track_in_bin];
        let start = t.starting_lba;
        assert(t.view() == self.current_track_view());
        let one = t.index_one_lba();
        let local = self.location.bin_local_lba;
        if local < start || one < start {
            return Err(ImageError::OutOfRange);
        }
        let index_one = one - start;
        let track_local = local - start;
        if track_local < index_one {
            msf_of((MSF_LBA_LIMIT - (index_one - track_local)) as u64)
        } else {
            msf_of((track_local - index_one) as u64)
        }
    }

    pub fn current_global_msf(&self) -> (r: Result<MsfIndex, ImageError>)
        ensures
            msf_result_ok(r, self.location().global_lba as nat),
    {
        msf_of(self.location.global_lba as u64)
    }

    pub fn current_track_type(&self) -> (r: Result<TrackType, ImageError>)
        ensures
            r == Ok::<TrackType, ImageError>(self.current_track_view().track_type),
    {
        proof {
            use_type_invariant(self);
        }
        Ok(self.bin_files[self.location.bin_file_no].tracks[self.location.track_in_bin].track_type)
    }

    pub fn first_track_type(&self) -> (r: TrackType)
        ensures
            r == self.bins()[0].tracks@[0].track_type,
    {
        proof {
            use_type_invariant(self);
        }
        self.bin_files[0].tracks[0].track_type
    }

    /// Moves to a disc position. Positions in the pregap lie before the first
    /// file; the others are found by `locate`.
    pub fn set_location(&mut self, target: MsfIndex) -> (r: Result<(), ImageError>)
        ensures
            final(self).bins() == old(self).bins(),
            final(self).invalid_subq() == old(self).invalid_subq(),
            match placed(old(self).bins(), target.lba()) {
                Some(l) => r is Ok && final(self).location() == l,
                None => r == Err::<(), ImageError>(ImageError::OutOfRange) && final(self).location()
                    == old(self).location(),
            },
    {
        proof {
            use_type_invariant(&*self);
        }
        let target_lba = target.to_lba();
        if target_lba < FIRST_TRACK_PREGAP {
            self.location = Location {
                bin_file_no: 0,
                track_in_bin: 0,
                global_lba: target_lba,
                bin_local_lba: 0,
            };
            return Ok(());
        }
        let mut left = target_lba - FIRST_TRACK_PREGAP;
        proof {
            lemma_locate_in_range(self.bin_files@, 0, left as nat);
        }
        let mut b: usize = 0;
        while b < self.bin_files.len()
            invariant
                b <= self.bin_files@.len(),
                bins_ok(self.bin_files@),
                self.bin_files@ == old(self).bin_files@,
                self.invalid_subq_lbas == old(self).invalid_subq_lbas,
                self.location == old(self).location,
                target_lba == target.lba(),
                target_lba >= FIRST_TRACK_PREGAP,
                locate(self.bin_files@, 0, (target_lba - FIRST_TRACK_PREGAP) as nat) == locate(
                    self.bin_files@,
                    b as int,
                    left as nat,
                ),
            decreases self.bin_files@.len() - b,
        {
            let bin = &self.bin_files[b];
            let ghost bins = self.bin_files@;
            assert(bin.tracks@ == bins[b as int].tracks@);
            if bin.num_sectors > left {
                match scan_tracks(&bin.tracks, left) {
                    Ok(t) => {
                        assert(locate(bins, b as int, left as nat) == Some(
                            Location { bin_file_no: b, track_in_bin: t, global_lba: 0, bin_local_lba: left },
                        ));
                        self.location = Location {
                            bin_file_no: b,
                            track_in_bin: t,
                            global_lba: target_lba,
                            bin_local_lba: left,
                        };
                        assert(target.lba() == target_lba as nat);
                        assert(placed(bins, target.lba()) == Some(self.location));
                        return Ok(());
                    },
                    Err(rest) => {
                        proof {
                            lemma_track_hit_in_range(bins[b as int].tracks@, 0, left as nat);
                        }
                        assert(locate(bins, b as int, left as nat) == locate(bins, b + 1, rest as nat));
                        left = rest;
                    },
                }
            } else {
                assert(locate(bins, b as int, left as nat) == locate(
                    bins,
                    b + 1,
                    (left - bin.num_sectors) as nat,
                ));
                left = left - bin.num_sectors;
            }
            b = b + 1;
        }
        Err(ImageError::OutOfRange)
    }

    /// Where index 1 of a track lies on the disc. Track 0 stands for the whole
    /// disc: its length, pregap included.
    pub fn track_start(&self, track: u8) -> (r: Result<MsfIndex, ImageError>)
        ensures
            track == 0 ==> msf_result_ok(
                r,
                sectors_before(self.bins(), self.bins().len() as int) + FIRST_TRACK_PREGAP as nat,
            ),
            track > 0 ==> match track_start_lba(self.bins(), track as nat) {
                Some(lba) => msf_result_ok(r, lba),
                None => r == Err::<MsfIndex, ImageError>(ImageError::OutOfRange),
            },
    {
        proof {
            use_type_invariant(self);
        }
        let ghost bins = self.bins();
        if track == 0 {
            let mut len: u64 = FIRST_TRACK_PREGAP as u64;
            let mut b: usize = 0;
            while b < self.bin_files.len()
                invariant
                    b <= bins.len() <= 255,
                    bins == self.bin_files@,
                    len == sectors_before(bins, b as int) + FIRST_TRACK_PREGAP,
                    sectors_before(bins, b as int) <= b * 0xffff_ffff,
                decreases bins.len() - b,
            {
                len = len + self.bin_files[b].num_sectors as u64;
                b = b + 1;
            }
            return msf_of(len);
        }
        let mut skipped: usize = 0;
        let mut pos: u64 = 0;
        let mut b: usize = 0;
        while b < self.bin_files.len()
            invariant
                b <= bins.len() <= 255,
                bins == self.bin_files@,
                bins_ok(bins),
                track > 0,
                skipped == tracks_before(bins, b as int),
                skipped < track,
                skipped <= b * 255,
                pos == sectors_before(bins, b as int),
                pos <= b * 0xffff_ffff,
                track_place(bins, 0, track as nat) == track_place(bins, b as int, track as nat),
            decreases bins.len() - b,
        {
            let bin = &self.bin_files[b];
            if bin.tracks.len() + skipped >= track as usize {
                let t = track as usize - skipped - 1;
                assert(track_place(bins, b as int, track as nat) == Some((b as int, t as int)));
                assert(track_ok(bins[b as int].tracks@[t as int].view()));
                let one = bin.tracks[t].index_one_lba();
                return msf_of(pos + one as u64 + FIRST_TRACK_PREGAP as u64);
            }
            skipped = skipped + bin.tracks.len();
            pos = pos + bin.num_sectors as u64;
            b = b + 1;
        }
        Err(ImageError::OutOfRange)
    }

    pub fn set_location_to_track(&mut self, track: u8) -> (r: Result<(), ImageError>)
        ensures
            final(self).bins() == old(self).bins(),
            final(self).invalid_subq() == old(self).invalid_subq(),
            match track_start_pos(old(self).bins(), track as nat) {
                None => r == Err::<(), ImageError>(ImageError::OutOfRange) && final(self).location()
                    == old(self).location(),
                Some(lba) => if lba >= MSF_LBA_LIMIT {
                    r == Err::<(), ImageError>(
                        ImageError::MsfIndexError(MsfIndexError::OutOfRangeError),
                    ) && final(self).location() == old(self).location()
                } else {
                    match placed(old(self).bins(), lba) {
                        Some(l) => r is Ok && final(self).location() == l,
                        None => r == Err::<(), ImageError>(ImageError::OutOfRange)
                            && final(self).location() == old(self).location(),
                    }
                },
            },
    {
        let start = self.track_start(track)?;
        self.set_location(start)
    }

    /// Steps to the next sector. Inside a file, leaving the current track's
    /// sectors moves to the next track of the file, or to the start of the next
    /// file; past the last track of the last file the disc has ended.
    pub fn advance_position(&mut self) -> (r: Result<Option<Event>, ImageError>)
        ensures
            final(self).bins() == old(self).bins(),
            final(self).invalid_subq() == old(self).invalid_subq(),
            r == Ok::<Option<Event>, ImageError>(advanced(old(self).bins(), old(self).location()).1),
            final(self).location() == advanced(old(self).bins(), old(self).location()).0,
    {
        proof {
            use_type_invariant(&*self);
        }
        if self.location.global_lba < FIRST_TRACK_PREGAP {
            self.location.global_lba = self.location.global_lba + 1;
            return Ok(None);
        }
        if self.location.global_lba == u32::MAX || self.location.bin_local_lba == u32::MAX {
            return Ok(Some(Event::EndOfDisc));
        }
        let b = self.location.bin_file_no;
        let t = self.location.track_in_bin;
        let n_tracks = self.bin_files[b].tracks.len();
        let n_bins = self.bin_files.len();
        let track = &self.bin_files[b].tracks[t];
        assert(track_ok(self.bin_files@[b as int].tracks@[t as int].view()));
        let track_end = track.starting_lba + track.num_sectors;
        self.location.global_lba = self.location.global_lba + 1;
        self.location.bin_local_lba = self.location.bin_local_lba + 1;
        if self.location.bin_local_lba < track_end {
            Ok(None)
        } else if n_tracks > t + 1 {
            self.location.track_in_bin = t + 1;
            Ok(Some(Event::TrackChange))
        } else if n_bins > b + 1 {
            self.location = Location {
                bin_file_no: b + 1,
                track_in_bin: 0,
                global_lba: self.location.global_lba,
                bin_local_lba: 0,
            };
            Ok(Some(Event::TrackChange))
        } else {
            Ok(Some(Event::EndOfDisc))
        }
    }

    /// Where the current sector's 2352 bytes are: the file and the byte offset
    /// in it. `None` inside the first track's pregap, whose sectors are zeros.
    pub fn sector_offset(&self) -> (r: Option<(usize, u64)>)
        ensures
            self.location().global_lba < FIRST_TRACK_PREGAP ==> r is None,
            self.location().global_lba >= FIRST_TRACK_PREGAP ==> r == Some(
                (self.location().bin_file_no, (self.location().bin_local_lba * 2352) as u64),
            ),
    {
        if self.location.global_lba < FIRST_TRACK_PREGAP {
            None
        } else {
            Some((self.location.bin_file_no, self.location.bin_local_lba as u64 * 2352))
        }
    }
}

/// Counts off the tracks of a file from sector `left` of it.
fn scan_tracks(ts: &Vec<Track>, left: u32) -> (r: Result<usize, u32>)
    ensures
        match track_hit(ts@, 0, left as nat) {
            Some(t) => r == Ok::<usize, u32>(t as usize),
            None => r == Err::<usize, u32>(track_rest(ts@, 0, left as nat) as u32),
        },
        r is Ok ==> r->Ok_0 < ts@.len(),
        r is Err ==> r->Err_0 <= left,
{
    let mut l = left;
    let mut t: usize = 0;
    while t < ts.len()
        invariant
            t <= ts@.len(),
            l <= left,
            track_hit(ts@, 0, left as nat) == track_hit(ts@, t as int, l as nat),
            track_rest(ts@, 0, left as nat) == track_rest(ts@, t as int, l as nat),
        decreases ts@.len() - t,
    {
        if ts[t].num_sectors > l {
            return Ok(t);
        }
        l = l - ts[t].num_sectors;
        t = t + 1;
    }
    Err(l)
}

proof fn lemma_locate_in_range(bins: Seq<BinFile>, b: int, left: nat)
    requires
        bins_ok(bins),
        0 <= b,
    ensures
        locate(bins, b, left) matches Some(l) ==> location_ok(bins, l),
    decreases bins.len() - b,
{
    if 0 <= b < bins.len() {
        lemma_track_hit_in_range(bins[b].tracks@, 0, left);
        lemma_locate_in_range(bins, b + 1, track_rest(bins[b].tracks@, 0, left));
        if bins[b].num_sectors <= left {
            lemma_locate_in_range(bins, b + 1, (left - bins[b].num_sectors) as nat);
        }
    }
}

proof fn lemma_track_hit_in_range(ts: Seq<Track>, i: int, left: nat)
    ensures
        track_hit(ts, i, left) matches Some(t) ==> 0 <= t < ts.len(),
        track_rest(ts, i, left) <= left,
    decreases ts.len() - i,
{
    if 0 <= i < ts.len() && ts[i].num_sectors <= left {
        lemma_track_hit_in_range(ts, i + 1, (left - ts[i].num_sectors) as nat);
    }
}

proof fn lemma_bins_cover(bins: Seq<BinFile>, fs: Seq<CueFileView>, counts: Seq<u32>)
    requires
        files_ok(fs),
        bins_from(bins, fs, counts),
        counts.len() == fs.len(),
        counts_fit(fs, counts),
        forall|f: int| 0 <= f < fs.len() ==> first_index((#[trigger] fs[f]).tracks[0]) == 0,
    ensures
        tracks_cover_files(bins),
{
    assert forall|b: int| 0 <= b < bins.len() implies {
        let ts = (#[trigger] bins[b]).tracks@;
        &&& ts.len() > 0
        &&& ts[0].starting_lba == 0
        &&& forall|t: int| 0 <= t < ts.len() - 1 ==> (#[trigger] ts[t + 1]).starting_lba
            == ts[t].starting_lba + ts[t].num_sectors
        &&& ts.last().starting_lba + ts.last().num_sectors == bins[b].num_sectors
    } by {
        assert(bin_from(bins[b], fs[b], counts[b]));
        assert(laid_out(fs[b].tracks));
        let ts = bins[b].tracks@;
        let tv = tracks_view(ts);
        let ft = fs[b].tracks;
        assert(tv.len() == ft.len());
        assert(ts.len() > 0);
        assert(tv[0] == ts[0].view());
        assert forall|t: int| 0 <= t < ts.len() - 1 implies (#[trigger] ts[t + 1]).starting_lba
            == ts[t].starting_lba + ts[t].num_sectors by {
            assert(tv[t] == ts[t].view());
            assert(tv[t + 1] == ts[t + 1].view());
            assert(ft[t + 1].starting_lba == ft[t].starting_lba + ft[t].num_sectors);
        }
        assert(tv[tv.len() - 1] == ts.last().view());
        assert(first_index(ft[0]) == 0);
    }
}

proof fn lemma_bins_ok(bins: Seq<BinFile>, fs: Seq<CueFileView>, counts: Seq<u32>)
    requires
        files_ok(fs),
        bins_from(bins, fs, counts),
        counts.len() == fs.len(),
        counts_fit(fs, counts),
    ensures
        bins_ok(bins),
{
    assert forall|b: int| 0 <= b < bins.len() implies 0 < (#[trigger] bins[b]).tracks@.len() <= 255 by {
        assert(bin_from(bins[b], fs[b], counts[b]));
        assert(tracks_view(bins[b].tracks@).len() == fs[b].tracks.len());
    }
    assert forall|b: int, t: int|
        0 <= b < bins.len() && 0 <= t < bins[b].tracks@.len() implies track_ok(
            #[trigger] bins[b].tracks@[t].view(),
        ) by {
        assert(bin_from(bins[b], fs[b], counts[b]));
        let tv = tracks_view(bins[b].tracks@);
        assert(tv[t] == bins[b].tracks@[t].view());
        assert(tv.len() == fs[b].tracks.len());
        assert(arranged_ok(fs[b].tracks[t]));
        if t == tv.len() - 1 {
            assert(first_index(fs[b].tracks.last()) <= counts[b]);
        }
    }
}

/// A position that the disc places anywhere is placed at that very position:
/// after a successful `set_location`, `current_global_msf` gives it back.
pub proof fn lemma_placed_keeps_position(bins: Seq<BinFile>, lba: nat)
    requires
        lba < MSF_LBA_LIMIT,
    ensures
        placed(bins, lba) matches Some(l) ==> l.global_lba == lba,
{
}

/// The tracks of every file follow one another from the file's first sector
/// to its last: each file's first track has its first index at 0.
pub open spec fn tracks_cover_files(bins: Seq<BinFile>) -> bool {
    forall|b: int|
        0 <= b < bins.len() ==> {
            let ts = (#[trigger] bins[b]).tracks@;
            &&& ts.len() > 0
            &&& ts[0].starting_lba == 0
            &&& forall|t: int| 0 <= t < ts.len() - 1 ==> (#[trigger] ts[t + 1]).starting_lba
                == ts[t].starting_lba + ts[t].num_sectors
            &&& ts.last().starting_lba + ts.last().num_sectors == bins[b].num_sectors
        }
}

/// First sector of track `t` of file `b` on the disc.
pub open spec fn track_disc_start(bins: Seq<BinFile>, b: int, t: int) -> nat {
    FIRST_TRACK_PREGAP as nat + sectors_before(bins, b) + bins[b].tracks@[t].starting_lba as nat
}

proof fn lemma_hit_in_cover(ts: Seq<Track>, i: int, pos: nat, end: nat)
    requires
        0 <= i < ts.len(),
        forall|t: int| 0 <= t < ts.len() - 1 ==> (#[trigger] ts[t + 1]).starting_lba == ts[t].starting_lba
            + ts[t].num_sectors,
        ts.last().starting_lba + ts.last().num_sectors == end,
        ts[i].starting_lba <= pos < end,
    ensures
        track_hit(ts, i, (pos - ts[i].starting_lba) as nat) matches Some(t) && 0 <= t < ts.len()
            && ts[t].starting_lba <= pos < ts[t].starting_lba + ts[t].num_sectors,
    decreases ts.len() - i,
{
    if ts[i].num_sectors <= pos - ts[i].starting_lba {
        if i + 1 < ts.len() {
            assert(ts[i + 1].starting_lba == ts[i].starting_lba + ts[i].num_sectors);
            lemma_hit_in_cover(ts, i + 1, pos, end);
        }
    }
}

proof fn lemma_locate_in_cover(bins: Seq<BinFile>, b: int, lba: nat)
    requires
        tracks_cover_files(bins),
        bins_ok(bins),
        0 <= b <= bins.len(),
        sectors_before(bins, b) <= lba < sectors_before(bins, bins.len() as int),
    ensures
        locate(bins, b, (lba - sectors_before(bins, b)) as nat) matches Some(l) && l.bin_file_no
            < bins.len() && l.track_in_bin < bins[l.bin_file_no as int].tracks@.len() && {
            let tr = bins[l.bin_file_no as int].tracks@[l.track_in_bin as int];
            &&& l.bin_local_lba == lba - sectors_before(bins, l.bin_file_no as int)
            &&& sectors_before(bins, l.bin_file_no as int) + tr.starting_lba <= lba
            &&& lba < sectors_before(bins, l.bin_file_no as int) + tr.starting_lba + tr.num_sectors
        },
    decreases bins.len() - b,
{
    if b == bins.len() {
        assert(false);
    } else {
        let left = (lba - sectors_before(bins, b)) as nat;
        assert(sectors_before(bins, b + 1) == sectors_before(bins, b) + bins[b].num_sectors);
        let ts = bins[b].tracks@;
        if bins[b].num_sectors > left {
            assert(ts.len() > 0 && ts[0].starting_lba == 0);
            assert(0 < ts.len() <= 255);
            lemma_hit_in_cover(ts, 0, left, bins[b].num_sectors as nat);
            let t = track_hit(ts, 0, left)->Some_0;
            assert(locate(bins, b, left) == Some(
                Location { bin_file_no: b as usize, track_in_bin: t as usize, global_lba: 0, bin_local_lba: left as u32 },
            ));
        } else {
            if b + 1 == bins.len() {
                assert(false);
            }
            lemma_locate_in_cover(bins, b + 1, lba);
        }
    }
}

/// Where the tracks cover their files, a position that the disc places lies
/// on the current track: past the pregap, `set_location` makes current a track
/// whose sectors hold the position, and the sector is read from the position's
/// offset in that track's file.
pub proof fn lemma_placed_on_current_track(bins: Seq<BinFile>, lba: nat)
    requires
        tracks_cover_files(bins),
        bins_ok(bins),
        lba >= FIRST_TRACK_PREGAP,
    ensures
        placed(bins, lba) matches Some(l) ==> {
            let tr = bins[l.bin_file_no as int].tracks@[l.track_in_bin as int];
            &&& l.bin_local_lba == lba - FIRST_TRACK_PREGAP - sectors_before(bins, l.bin_file_no as int)
            &&& track_disc_start(bins, l.bin_file_no as int, l.track_in_bin as int) <= lba
                < track_disc_start(bins, l.bin_file_no as int, l.track_in_bin as int) + tr.num_sectors
        },
{
    let pos = (lba - FIRST_TRACK_PREGAP) as nat;
    if pos < sectors_before(bins, bins.len() as int) {
        lemma_locate_in_cover(bins, 0, pos);
    } else {
        lemma_locate_past_end(bins, 0, pos);
    }
}

proof fn lemma_locate_past_end(bins: Seq<BinFile>, b: int, pos: nat)
    requires
        tracks_cover_files(bins),
        0 <= b <= bins.len(),
        sectors_before(bins, b) <= pos,
        pos >= sectors_before(bins, bins.len() as int),
    ensures
        locate(bins, b, (pos - sectors_before(bins, b)) as nat) is None,
    decreases bins.len() - b,
{
    if b < bins.len() {
        assert(sectors_before(bins, b + 1) == sectors_before(bins, b) + bins[b].num_sectors);
        lemma_sectors_before_grows(bins, b + 1, bins.len() as int);
        lemma_locate_past_end(bins, b + 1, pos);
    }
}

proof fn lemma_sectors_before_grows(bins: Seq<BinFile>, a: int, b: int)
    requires
        0 <= a <= b,
    ensures
        sectors_before(bins, a) <= sectors_before(bins, b),
    decreases b - a,
{
    if a < b {
        lemma_sectors_before_grows(bins, a, b - 1);
    }
}

proof fn lemma_tracks_follow(ts: Seq<Track>, a: int, b: int)
    requires
        0 <= a < b < ts.len(),
        forall|t: int| 0 <= t < ts.len() - 1 ==> (#[trigger] ts[t + 1]).starting_lba == ts[t].starting_lba
            + ts[t].num_sectors,
    ensures
        ts[a].starting_lba + ts[a].num_sectors <= ts[b].starting_lba,
    decreases b - a,
{
    if a + 1 < b {
        lemma_tracks_follow(ts, a, b - 1);
        let k = b - 1;
        assert(ts[k + 1].starting_lba == ts[k].starting_lba + ts[k].num_sectors);
    } else {
        assert(ts[a + 1].starting_lba == ts[a].starting_lba + ts[a].num_sectors);
    }
}

proof fn lemma_track_in_file(bins: Seq<BinFile>, b: int, t: int)
    requires
        tracks_cover_files(bins),
        0 <= b < bins.len(),
        0 <= t < bins[b].tracks@.len(),
    ensures
        bins[b].tracks@[t].starting_lba + bins[b].tracks@[t].num_sectors <= bins[b].num_sectors,
{
    let ts = bins[b].tracks@;
    assert(ts.last().starting_lba + ts.last().num_sectors == bins[b].num_sectors);
    if t < ts.len() - 1 {
        lemma_tracks_follow(ts, t, ts.len() - 1);
    }
}

/// Where the tracks cover their files, no two tracks share a disc position,
/// so the track that holds a position is the only one.
pub proof fn lemma_one_cue_track_holds(bins: Seq<BinFile>, lba: nat, b1: int, t1: int, b2: int, t2: int)
    requires
        tracks_cover_files(bins),
        0 <= b1 < bins.len(),
        0 <= t1 < bins[b1].tracks@.len(),
        0 <= b2 < bins.len(),
        0 <= t2 < bins[b2].tracks@.len(),
        track_disc_start(bins, b1, t1) <= lba < track_disc_start(bins, b1, t1) + bins[b1].tracks@[t1].num_sectors,
        track_disc_start(bins, b2, t2) <= lba < track_disc_start(bins, b2, t2) + bins[b2].tracks@[t2].num_sectors,
    ensures
        b1 == b2 && t1 == t2,
{
    if b1 == b2 {
        if t1 < t2 {
            lemma_tracks_follow(bins[b1].tracks@, t1, t2);
        } else if t2 < t1 {
            lemma_tracks_follow(bins[b1].tracks@, t2, t1);
        }
    } else {
        let (x, tx, y) = if b1 < b2 { (b1, t1, b2) } else { (b2, t2, b1) };
        lemma_track_in_file(bins, x, tx);
        lemma_sectors_before_grows(bins, x + 1, y);
        assert(sectors_before(bins, x + 1) == sectors_before(bins, x) + bins[x].num_sectors);
    }
}

/// Where the tracks cover their files and none is empty, stepping from a
/// position on a track ends the disc exactly on the step past its last sector,
/// changes track exactly when the track or file changes, and otherwise lands
/// on a track again.
pub proof fn lemma_advance_on_covered_disc(bins: Seq<BinFile>, l: Location)
    requires
        tracks_cover_files(bins),
        no_empty_tracks(bins),
        bins_ok(bins),
        on_track(bins, l),
        l.global_lba < u32::MAX,
    ensures
        (advanced(bins, l).1 == Some(Event::EndOfDisc)) <==> (l.global_lba + 1 == FIRST_TRACK_PREGAP
            + sectors_before(bins, bins.len() as int)),
        (advanced(bins, l).1 == Some(Event::TrackChange)) <==> (advanced(bins, l).0.bin_file_no
            != l.bin_file_no || advanced(bins, l).0.track_in_bin != l.track_in_bin),
        advanced(bins, l).1 != Some(Event::EndOfDisc) ==> on_track(bins, advanced(bins, l).0),
{
    let b = l.bin_file_no as int;
    let t = l.track_in_bin as int;
    let ts = bins[b].tracks@;
    lemma_track_in_file(bins, b, t);
    assert(sectors_before(bins, b + 1) == sectors_before(bins, b) + bins[b].num_sectors);
    lemma_sectors_before_grows(bins, b + 1, bins.len() as int);
    assert(l.bin_local_lba < u32::MAX);
    let end = ts[t].starting_lba + ts[t].num_sectors;
    if l.bin_local_lba + 1 < end {
    } else if t + 1 < ts.len() {
        assert(ts[t + 1].starting_lba == ts[t].starting_lba + ts[t].num_sectors);
        assert(ts[t + 1].num_sectors > 0);
        lemma_track_in_file(bins, b, t + 1);
    } else {
        assert(ts.last() == ts[t]);
        if b + 1 < bins.len() {
            let n = bins[b + 1].tracks@;
            assert(n.len() > 0 && n[0].starting_lba == 0);
            assert(n[0].num_sectors > 0);
            lemma_sectors_before_grows(bins, b + 2, bins.len() as int);
            assert(sectors_before(bins, b + 2) == sectors_before(bins, b + 1) + bins[b + 1].num_sectors);
            lemma_track_in_file(bins, b + 1, 0);
        }
    }
}

proof fn lemma_tracks_before_grows(bins: Seq<BinFile>, a: int, b: int)
    requires
        0 <= a <= b,
    ensures
        tracks_before(bins, a) <= tracks_before(bins, b),
    decreases b - a,
{
    if a < b {
        lemma_tracks_before_grows(bins, a, b - 1);
    }
}

} // verus!
