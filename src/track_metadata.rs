//! CD track records stored as metadata entries of a CHD file.
use vstd::prelude::*;
use chd::metadata::{KnownMetadata, Metadata};
use crate::text::{decimal_in, find_from, parse_decimal};

verus! {

#[verifier::external_type_specification]
pub struct ExMetadata(Metadata);

/// Relies on `chd::metadata::KnownMetadata::CdRomTrack`: the tag `CHTR` as a
/// big-endian number.
#[verifier::external_body]
fn cd_rom_track_tag() -> (r: u32)
    ensures
        r == 0x4348_5452,
{
    KnownMetadata::CdRomTrack as u32
}

/// Relies on `chd::metadata::KnownMetadata::CdRomTrack2`: the tag `CHT2` as a
/// big-endian number.
#[verifier::external_body]
fn cd_rom_track2_tag() -> (r: u32)
    ensures
        r == 0x4348_5432,
{
    KnownMetadata::CdRomTrack2 as u32
}

/// A track record could not be read.
#[derive(Clone, Copy, Debug, PartialEq, Eq, Structural)]
pub struct TrackParseError;

/// A CD track as a CHD file describes it.
#[derive(Debug)]
pub struct CdTrackInfo {
    pub track_no: u8,
    pub track_type: Vec<u8>,
    pub sub_type: Vec<u8>,
    pub frames: u32,
    /// Present in records of the second kind only, as the next three.
    pub pregap: Option<u32>,
    pub pgtype: Option<Vec<u8>>,
    pub pgsub: Option<Vec<u8>>,
    pub postgap: Option<u32>,
}

pub struct CdTrackView {
    pub track_no: nat,
    pub track_type: Seq<u8>,
    pub sub_type: Seq<u8>,
    pub frames: nat,
    pub pregap: Option<nat>,
    pub pgtype: Option<Seq<u8>>,
    pub pgsub: Option<Seq<u8>>,
    pub postgap: Option<nat>,
}

impl CdTrackInfo {
    pub open spec fn view(&self) -> CdTrackView {
        CdTrackView {
            track_no: self.track_no as nat,
            track_type: self.track_type@,
            sub_type: self.sub_type@,
            frames: self.frames as nat,
            pregap: match self.pregap {
                Some(p) => Some(p as nat),
                None => None,
            },
            pgtype: match self.pgtype {
                Some(p) => Some(p@),
                None => None,
            },
            pgsub: match self.pgsub {
                Some(p) => Some(p@),
                None => None,
            },
            postgap: match self.postgap {
                Some(p) => Some(p as nat),
                None => None,
            },
        }
    }
}

/// Reads the fields of a record from position `pos` on: field `k` follows the
/// text `lits[k]` and runs up to the byte `ends[k]`, which must be there.
/// Gives the bounds of the fields.
pub open spec fn scan_fields(d: Seq<u8>, pos: int, lits: Seq<Seq<u8>>, ends: Seq<u8>, k: int) -> Option<
    Seq<(int, int)>,
>
    decreases lits.len() - k,
{
    if k < 0 || k >= lits.len() || k >= ends.len() {
        Some(Seq::empty())
    } else {
        let l = lits[k];
        if pos < 0 || pos + l.len() > d.len() || d.subrange(pos, pos + l.len()) != l {
            None
        } else {
            let p = pos + l.len();
            let q = find_from(d, ends[k], p);
            if q >= d.len() {
                None
            } else {
                match scan_fields(d, q + 1, lits, ends, k + 1) {
                    Some(rest) => Some(seq![(p, q)] + rest),
                    None => None,
                }
            }
        }
    }
}

pub open spec fn v1_lits() -> Seq<Seq<u8>> {
    seq![
        seq![84u8, 82, 65, 67, 75, 58],
        seq![84u8, 89, 80, 69, 58],
        seq![83u8, 85, 66, 84, 89, 80, 69, 58],
        seq![70u8, 82, 65, 77, 69, 83, 58],
    ]
}

pub open spec fn v2_lits() -> Seq<Seq<u8>> {
    v1_lits() + seq![
        seq![80u8, 82, 69, 71, 65, 80, 58],
        seq![80u8, 71, 84, 89, 80, 69, 58],
        seq![80u8, 71, 83, 85, 66, 58],
        seq![80u8, 79, 83, 84, 71, 65, 80, 58],
    ]
}

/// `TRACK:%u TYPE:%s SUBTYPE:%s FRAMES:%u\0`
pub open spec fn v1_ends() -> Seq<u8> {
    seq![32u8, 32, 32, 0]
}

/// `TRACK:%u TYPE:%s SUBTYPE:%s FRAMES:%u PREGAP:%u PGTYPE:%s PGSUB:%s POSTGAP:%u\0`
pub open spec fn v2_ends() -> Seq<u8> {
    seq![32u8, 32, 32, 32, 32, 32, 32, 0]
}

pub open spec fn field(d: Seq<u8>, f: Seq<(int, int)>, k: int) -> Seq<u8> {
    d.subrange(f[k].0, f[k].1)
}

/// The track that a record of the first kind describes.
pub open spec fn v1_track(d: Seq<u8>) -> Option<CdTrackView> {
    match scan_fields(d, 0, v1_lits(), v1_ends(), 0) {
        None => None,
        Some(f) => match (decimal_in(field(d, f, 0), 255), decimal_in(field(d, f, 3), 0xffff_ffff)) {
            (Some(n), Some(frames)) => Some(
                CdTrackView {
                    track_no: n,
                    track_type: field(d, f, 1),
                    sub_type: field(d, f, 2),
                    frames,
                    pregap: None,
                    pgtype: None,
                    pgsub: None,
                    postgap: None,
                },
            ),
            _ => None,
        },
    }
}

/// The track that a record of the second kind describes.
pub open spec fn v2_track(d: Seq<u8>) -> Option<CdTrackView> {
    match scan_fields(d, 0, v2_lits(), v2_ends(), 0) {
        None => None,
        Some(f) => match (
            decimal_in(field(d, f, 0), 255),
            decimal_in(field(d, f, 3), 0xffff_ffff),
            decimal_in(field(d, f, 4), 0xffff_ffff),
            decimal_in(field(d, f, 7), 0xffff_ffff),
        ) {
            (Some(n), Some(frames), Some(pregap), Some(postgap)) => Some(
                CdTrackView {
                    track_no: n,
                    track_type: field(d, f, 1),
                    sub_type: field(d, f, 2),
                    frames,
                    pregap: Some(pregap),
                    pgtype: Some(field(d, f, 5)),
                    pgsub: Some(field(d, f, 6)),
                    postgap: Some(postgap),
                },
            ),
            _ => None,
        },
    }
}

fn starts_with_at(d: &[u8], pos: usize, lit: &Vec<u8>) -> (r: bool)
    ensures
        r == (pos + lit@.len() <= d@.len() && d@.subrange(pos as int, pos + lit@.len()) == lit@),
{
    if lit.len() > d.len() || pos > d.len() - lit.len() {
        return false;
    }
    let n = d.len();
    let mut i: usize = 0;
    while i < lit.len()
        invariant
            n == d@.len(),
            pos + lit@.len() <= d@.len(),
            i <= lit@.len(),
            d@.subrange(pos as int, pos + i) == lit@.subrange(0, i as int),
        decreases lit@.len() - i,
    {
        if d[pos + i] != lit[i] {
            assert(d@.subrange(pos as int, pos + lit@.len())[i as int] != lit@[i as int]);
            return false;
        }
        assert(d@.subrange(pos as int, pos + i + 1) =~= d@.subrange(pos as int, pos + i).push(d@[pos + i]));
        assert(lit@.subrange(0, i + 1) =~= lit@.subrange(0, i as int).push(lit@[i as int]));
        i = i + 1;
    }
    assert(lit@.subrange(0, i as int) =~= lit@);
    true
}

fn scan_record(d: &[u8], lits: &Vec<Vec<u8>>, ends: &Vec<u8>) -> (r: Option<Vec<(usize, usize)>>)
    requires
        lits@.len() == ends@.len(),
    ensures
        match scan_fields(d@, 0, lits@.map_values(|l: Vec<u8>| l@), ends@, 0) {
            Some(f) => r is Some && r->Some_0@.len() == f.len() && forall|k: int|
                0 <= k < f.len() ==> (#[trigger] r->Some_0@[k]).0 == f[k].0 && r->Some_0@[k].1
                    == f[k].1 && f[k].0 <= f[k].1 <= d@.len(),
            None => r is None,
        },
{
    let ghost ls = lits@.map_values(|l: Vec<u8>| l@);
    let mut out: Vec<(usize, usize)> = Vec::new();
    let mut pos: usize = 0;
    let mut k: usize = 0;
    while k < lits.len()
        invariant
            k <= lits@.len() == ends@.len() == ls.len(),
            ls == lits@.map_values(|l: Vec<u8>| l@),
            pos <= d@.len(),
            out@.len() == k,
            forall|j: int| 0 <= j < k ==> (#[trigger] out@[j]).0 <= out@[j].1 <= d@.len(),
            scan_fields(d@, 0, ls, ends@, 0) == match scan_fields(d@, pos as int, ls, ends@, k as int) {
                Some(rest) => Some(out@.map_values(|b: (usize, usize)| (b.0 as int, b.1 as int)) + rest),
                None => None::<Seq<(int, int)>>,
            },
        decreases lits@.len() - k,
    {
        let lit = &lits[k];
        assert(ls[k as int] == lit@);
        if !starts_with_at(d, pos, lit) {
            return None;
        }
        let n = d.len();
        assert(pos + lit@.len() <= n);
        let p = pos + lit.len();
        let q = crate::index::find_byte(d, 0, d.len(), p, ends[k]);
        assert(d@.subrange(0, d@.len() as int) =~= d@);
        if q >= d.len() {
            return None;
        }
        let ghost before = out@.map_values(|b: (usize, usize)| (b.0 as int, b.1 as int));
        out.push((p, q));
        assert(out@.map_values(|b: (usize, usize)| (b.0 as int, b.1 as int)) =~= before.push((p as int, q as int)));
        assert(before.push((p as int, q as int)) + scan_fields(d@, q + 1, ls, ends@, k + 1)->Some_0
            =~= before + (seq![(p as int, q as int)] + scan_fields(d@, q + 1, ls, ends@, k + 1)->Some_0));
        pos = q + 1;
        k = k + 1;
    }
    assert(out@.map_values(|b: (usize, usize)| (b.0 as int, b.1 as int)) + Seq::<(int, int)>::empty()
        =~= out@.map_values(|b: (usize, usize)| (b.0 as int, b.1 as int)));
    Some(out)
}

fn v1_pattern() -> (r: (Vec<Vec<u8>>, Vec<u8>))
    ensures
        r.0@.map_values(|l: Vec<u8>| l@) == v1_lits(),
        r.1@ == v1_ends(),
{
    let lits = vec![
        vec![84u8, 82, 65, 67, 75, 58],
        vec![84u8, 89, 80, 69, 58],
        vec![83u8, 85, 66, 84, 89, 80, 69, 58],
        vec![70u8, 82, 65, 77, 69, 83, 58],
    ];
    assert(lits@.map_values(|l: Vec<u8>| l@) =~= v1_lits());
    let ends = vec![32u8, 32, 32, 0];
    assert(ends@ =~= v1_ends());
    (lits, ends)
}

fn v2_pattern() -> (r: (Vec<Vec<u8>>, Vec<u8>))
    ensures
        r.0@.map_values(|l: Vec<u8>| l@) == v2_lits(),
        r.1@ == v2_ends(),
{
    let lits = vec![
        vec![84u8, 82, 65, 67, 75, 58],
        vec![84u8, 89, 80, 69, 58],
        vec![83u8, 85, 66, 84, 89, 80, 69, 58],
        vec![70u8, 82, 65, 77, 69, 83, 58],
        vec![80u8, 82, 69, 71, 65, 80, 58],
        vec![80u8, 71, 84, 89, 80, 69, 58],
        vec![80u8, 71, 83, 85, 66, 58],
        vec![80u8, 79, 83, 84, 71, 65, 80, 58],
    ];
    assert(lits@.map_values(|l: Vec<u8>| l@) =~= v2_lits());
    let ends = vec![32u8, 32, 32, 32, 32, 32, 32, 0];
    assert(ends@ =~= v2_ends());
    (lits, ends)
}

impl CdTrackInfo {
    /// Reads a record of the first kind.
    pub fn from_v1_metadata(bytes: &[u8]) -> (r: Result<CdTrackInfo, TrackParseError>)
        ensures
            match v1_track(bytes@) {
                Some(v) => r is Ok && r->Ok_0.view() == v,
                None => r == Err::<CdTrackInfo, TrackParseError>(TrackParseError),
            },
    {
        let (lits, ends) = v1_pattern();
        let f = match scan_record(bytes, &lits, &ends) {
            Some(f) => f,
            None => return Err(TrackParseError),
        };
        let ghost fs = scan_fields(bytes@, 0, v1_lits(), v1_ends(), 0)->Some_0;
        proof {
            lemma_scan_len(bytes@, 0, v1_lits(), v1_ends(), 0);
        }
        assert(f@.len() == 4);
        assert(field(bytes@, fs, 0) == bytes@.subrange(f@[0].0 as int, f@[0].1 as int));
        assert(field(bytes@, fs, 1) == bytes@.subrange(f@[1].0 as int, f@[1].1 as int));
        assert(field(bytes@, fs, 2) == bytes@.subrange(f@[2].0 as int, f@[2].1 as int));
        assert(field(bytes@, fs, 3) == bytes@.subrange(f@[3].0 as int, f@[3].1 as int));
        let track_no = match parse_decimal(bytes, f[0].0, f[0].1, 255) {
            Some(n) => n as u8,
            None => return Err(TrackParseError),
        };
        let frames = match parse_decimal(bytes, f[3].0, f[3].1, 0xffff_ffff) {
            Some(n) => n,
            None => return Err(TrackParseError),
        };
        Ok(CdTrackInfo {
            track_no,
            track_type: crate::text::copy_range(bytes, f[1].0, f[1].1),
            sub_type: crate::text::copy_range(bytes, f[2].0, f[2].1),
            frames,
            pregap: None,
            pgtype: None,
            pgsub: None,
            postgap: None,
        })
    }

    /// Reads a record of the second kind.
    pub fn from_v2_metadata(bytes: &[u8]) -> (r: Result<CdTrackInfo, TrackParseError>)
        ensures
            match v2_track(bytes@) {
                Some(v) => r is Ok && r->Ok_0.view() == v,
                None => r == Err::<CdTrackInfo, TrackParseError>(TrackParseError),
            },
    {
        let (lits, ends) = v2_pattern();
        let f = match scan_record(bytes, &lits, &ends) {
            Some(f) => f,
            None => return Err(TrackParseError),
        };
        let ghost fs = scan_fields(bytes@, 0, v2_lits(), v2_ends(), 0)->Some_0;
        proof {
            lemma_scan_len(bytes@, 0, v2_lits(), v2_ends(), 0);
        }
        assert(f@.len() == 8);
        assert(forall|k: int| 0 <= k < 8 ==> #[trigger] field(bytes@, fs, k) == bytes@.subrange(f@[k].0 as int, f@[k].1 as int));
        let track_no = match parse_decimal(bytes, f[0].0, f[0].1, 255) {
            Some(n) => n as u8,
            None => return Err(TrackParseError),
        };
        let frames = match parse_decimal(bytes, f[3].0, f[3].1, 0xffff_ffff) {
            Some(n) => n,
            None => return Err(TrackParseError),
        };
        let pregap = match parse_decimal(bytes, f[4].0, f[4].1, 0xffff_ffff) {
            Some(n) => n,
            None => return Err(TrackParseError),
        };
        let postgap = match parse_decimal(bytes, f[7].0, f[7].1, 0xffff_ffff) {
            Some(n) => n,
            None => return Err(TrackParseError),
        };
        assert(field(bytes@, fs, 1) == bytes@.subrange(f@[1].0 as int, f@[1].1 as int));
        assert(field(bytes@, fs, 2) == bytes@.subrange(f@[2].0 as int, f@[2].1 as int));
        assert(field(bytes@, fs, 5) == bytes@.subrange(f@[5].0 as int, f@[5].1 as int));
        assert(field(bytes@, fs, 6) == bytes@.subrange(f@[6].0 as int, f@[6].1 as int));
        Ok(CdTrackInfo {
            track_no,
            track_type: crate::text::copy_range(bytes, f[1].0, f[1].1),
            sub_type: crate::text::copy_range(bytes, f[2].0, f[2].1),
            frames,
            pregap: Some(pregap),
            pgtype: Some(crate::text::copy_range(bytes, f[5].0, f[5].1)),
            pgsub: Some(crate::text::copy_range(bytes, f[6].0, f[6].1)),
            postgap: Some(postgap),
        })
    }
}

/// The CD tracks that metadata entries describe, in order: `CHTR` entries are
/// records of the first kind, `CHT2` entries of the second, others are skipped.
pub open spec fn cd_tracks_of(ms: Seq<Metadata>) -> Option<Seq<CdTrackView>>
    decreases ms.len(),
{
    if ms.len() == 0 {
        Some(Seq::empty())
    } else {
        let m = ms.last();
        match cd_tracks_of(ms.drop_last()) {
            None => None,
            Some(ts) => if m.metatag == 0x4348_5452 {
                match v1_track(m.value@) {
                    Some(t) => Some(ts.push(t)),
                    None => None,
                }
            } else if m.metatag == 0x4348_5432 {
                match v2_track(m.value@) {
                    Some(t) => Some(ts.push(t)),
                    None => None,
                }
            } else {
                Some(ts)
            },
        }
    }
}

pub open spec fn infos_view(ts: Seq<CdTrackInfo>) -> Seq<CdTrackView> {
    ts.map_values(|t: CdTrackInfo| t.view())
}

pub fn cd_tracks(metadata: &[Metadata]) -> (r: Result<Vec<CdTrackInfo>, TrackParseError>)
    ensures
        match cd_tracks_of(metadata@) {
            Some(ts) => r is Ok && infos_view(r->Ok_0@) == ts,
            None => r == Err::<Vec<CdTrackInfo>, TrackParseError>(TrackParseError),
        },
{
    let v1 = cd_rom_track_tag();
    let v2 = cd_rom_track2_tag();
    let mut tracks: Vec<CdTrackInfo> = Vec::new();
    let mut i: usize = 0;
    while i < metadata.len()
        invariant
            i <= metadata@.len(),
            v1 == 0x4348_5452,
            v2 == 0x4348_5432,
            cd_tracks_of(metadata@.subrange(0, i as int)) == Some(infos_view(tracks@)),
        decreases metadata@.len() - i,
    {
        let m = &metadata[i];
        let ghost pre = metadata@.subrange(0, i as int);
        assert(metadata@.subrange(0, i + 1).drop_last() =~= pre);
        assert(metadata@.subrange(0, i + 1).last() == metadata@[i as int]);
        let ghost before = infos_view(tracks@);
        if m.metatag == v1 {
            match CdTrackInfo::from_v1_metadata(m.value.as_slice()) {
                Ok(t) => {
                    tracks.push(t);
                    assert(infos_view(tracks@) =~= before.push(t.view()));
                },
                Err(e) => {
                    proof {
                        lemma_cd_tracks_fail(metadata@, i as int + 1);
                    }
                    return Err(e);
                },
            }
        } else if m.metatag == v2 {
            match CdTrackInfo::from_v2_metadata(m.value.as_slice()) {
                Ok(t) => {
                    tracks.push(t);
                    assert(infos_view(tracks@) =~= before.push(t.view()));
                },
                Err(e) => {
                    proof {
                        lemma_cd_tracks_fail(metadata@, i as int + 1);
                    }
                    return Err(e);
                },
            }
        }
        i = i + 1;
    }
    assert(metadata@.subrange(0, i as int) =~= metadata@);
    Ok(tracks)
}

/// Once a record cannot be read, no longer list of entries can be read either.
proof fn lemma_cd_tracks_fail(ms: Seq<Metadata>, i: int)
    requires
        0 <= i <= ms.len(),
        cd_tracks_of(ms.subrange(0, i)) is None,
    ensures
        cd_tracks_of(ms) is None,
    decreases ms.len() - i,
{
    if i < ms.len() {
        assert(ms.subrange(0, i + 1).drop_last() =~= ms.subrange(0, i));
        lemma_cd_tracks_fail(ms, i + 1);
    } else {
        assert(ms.subrange(0, i) =~= ms);
    }
}

proof fn lemma_scan_len(d: Seq<u8>, pos: int, lits: Seq<Seq<u8>>, ends: Seq<u8>, k: int)
    requires
        0 <= k <= lits.len() == ends.len(),
    ensures
        scan_fields(d, pos, lits, ends, k) matches Some(f) ==> f.len() == lits.len() - k,
    decreases lits.len() - k,
{
    if k < lits.len() {
        let p = pos + lits[k].len();
        let q = find_from(d, ends[k], p);
        lemma_scan_len(d, q + 1, lits, ends, k + 1);
    }
}

} // verus!
