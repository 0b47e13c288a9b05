//! Minute/second/frame time codes and their conversions.
use vstd::prelude::*;
use vstd::string::StringSliceAdditionalSpecFns;
use crate::text::{decimal_in, find_from, parse_decimal, trim, trim_bounds};

verus! {

/// Frames per second of CD audio.
pub const FRAMES_PER_SECOND: u32 = 75;

/// Frames per minute of CD audio.
pub const FRAMES_PER_MINUTE: u32 = 4500;

/// Number of addressable sectors: one past the LBA of `99:59:74`.
pub const MSF_LBA_LIMIT: u32 = 450000;

#[derive(Clone, Copy, Debug, PartialEq, Eq, Structural)]
pub enum MsfIndexError {
    ParseIntError,
    OutOfRangeError,
    InvalidMsfError,
}

pub open spec fn msf_in_range(m: nat, s: nat, f: nat) -> bool {
    m <= 99 && s <= 59 && f <= 74
}

/// Linear sector address of a time code.
pub open spec fn msf_lba(m: nat, s: nat, f: nat) -> nat {
    (m * 60 + s) * 75 + f
}

/// The time code of a linear sector address.
pub open spec fn lba_fields(n: nat) -> (nat, nat, nat) {
    (n / 4500, n % 4500 / 75, n % 75)
}

/// A binary-coded decimal byte whose two nibbles are decimal digits.
pub open spec fn bcd_ok(b: u8) -> bool {
    b / 16 <= 9 && b % 16 <= 9
}

pub open spec fn bcd_value(b: u8) -> nat {
    (b / 16) as nat * 10 + (b % 16) as nat
}

/// The binary-coded decimal byte of a value below 100.
pub open spec fn bcd_of(v: nat) -> nat {
    (v / 10) * 16 + v % 10
}

/// What parsing the text `MM:SS:FF` yields: three colon-separated decimal
/// fields, surrounding white space tolerated (Unicode White_Space, such as
/// U+00A0, over the UTF-8 bytes).
pub open spec fn parse_msf(b: Seq<u8>) -> Result<(nat, nat, nat), MsfIndexError> {
    let t = trim(b);
    let i = find_from(t, 58, 0);
    let j = find_from(t, 58, i + 1);
    let k = find_from(t, 58, j + 1);
    if i >= t.len() || j >= t.len() || k < t.len() {
        Err(MsfIndexError::InvalidMsfError)
    } else {
        match (
            decimal_in(t.subrange(0, i), 255),
            decimal_in(t.subrange(i + 1, j), 255),
            decimal_in(t.subrange(j + 1, t.len() as int), 255),
        ) {
            (Some(m), Some(s), Some(f)) => if msf_in_range(m, s, f) {
                Ok((m, s, f))
            } else {
                Err(MsfIndexError::OutOfRangeError)
            },
            _ => Err(MsfIndexError::ParseIntError),
        }
    }
}

/// MsfIndex(minutes, seconds, frames), not BCD encoded.
#[derive(Clone, Copy, Debug, PartialEq, Eq, Structural, PartialOrd, Ord, Hash)]
pub struct MsfIndex(u8, u8, u8);

impl MsfIndex {
    #[verifier::type_invariant]
    spec fn fields_in_range(self) -> bool {
        msf_in_range(self.0 as nat, self.1 as nat, self.2 as nat)
    }

    pub closed spec fn minutes(self) -> nat {
        self.0 as nat
    }

    pub closed spec fn seconds(self) -> nat {
        self.1 as nat
    }

    pub closed spec fn frames(self) -> nat {
        self.2 as nat
    }

    pub open spec fn fields(self) -> (nat, nat, nat) {
        (self.minutes(), self.seconds(), self.frames())
    }

    pub open spec fn valid(self) -> bool {
        msf_in_range(self.minutes(), self.seconds(), self.frames())
    }

    pub open spec fn lba(self) -> nat {
        msf_lba(self.minutes(), self.seconds(), self.frames())
    }

    /// Every time code keeps its fields in range.
    pub fn lemma_valid(&self)
        ensures
            self.valid(),
    {
        proof {
            use_type_invariant(self);
        }
    }

    /// Two time codes with the same fields are the same.
    pub proof fn lemma_fields_determine(a: MsfIndex, b: MsfIndex)
        ensures
            a.fields() == b.fields() <==> a == b,
    {
    }

    pub fn new(m: u8, s: u8, f: u8) -> (r: Result<MsfIndex, MsfIndexError>)
        ensures
            msf_in_range(m as nat, s as nat, f as nat) ==> r is Ok && r->Ok_0.fields() == (
            m as nat, s as nat, f as nat),
            !msf_in_range(m as nat, s as nat, f as nat) ==> r == Err::<MsfIndex, MsfIndexError>(
                MsfIndexError::OutOfRangeError,
            ),
    {
        if m > 99 || s > 59 || f > 74 {
            Err(MsfIndexError::OutOfRangeError)
        } else {
            Ok(MsfIndex(m, s, f))
        }
    }

    pub fn from_bcd_values(m_bcd: u8, s_bcd: u8, f_bcd: u8) -> (r: Result<MsfIndex, MsfIndexError>)
        ensures
            bcd_ok(m_bcd) && bcd_ok(s_bcd) && bcd_ok(f_bcd) && msf_in_range(
                bcd_value(m_bcd),
                bcd_value(s_bcd),
                bcd_value(f_bcd),
            ) ==> r is Ok && r->Ok_0.fields() == (
            bcd_value(m_bcd), bcd_value(s_bcd), bcd_value(f_bcd)),
            !(bcd_ok(m_bcd) && bcd_ok(s_bcd) && bcd_ok(f_bcd) && msf_in_range(
                bcd_value(m_bcd),
                bcd_value(s_bcd),
                bcd_value(f_bcd),
            )) ==> r == Err::<MsfIndex, MsfIndexError>(MsfIndexError::OutOfRangeError),
    {
        if m_bcd / 16 > 9 || m_bcd % 16 > 9 || s_bcd / 16 > 9 || s_bcd % 16 > 9 || f_bcd / 16 > 9
            || f_bcd % 16 > 9 {
            Err(MsfIndexError::OutOfRangeError)
        } else {
            let m = (m_bcd / 16) * 10 + m_bcd % 16;
            let s = (s_bcd / 16) * 10 + s_bcd % 16;
            let f = (f_bcd / 16) * 10 + f_bcd % 16;
            MsfIndex::new(m, s, f)
        }
    }

    /// Parses `MM:SS:FF` given as bytes.
    pub fn try_from_bytes(b: &[u8]) -> (r: Result<MsfIndex, MsfIndexError>)
        ensures
            match parse_msf(b@) {
                Ok(t) => r is Ok && r->Ok_0.fields() == t,
                Err(e) => r == Err::<MsfIndex, MsfIndexError>(e),
            },
    {
        assert(b@.subrange(0, b@.len() as int) =~= b@);
        Self::try_from_range(b, 0, b.len())
    }

    pub fn try_from_range(b: &[u8], lo: usize, hi: usize) -> (r: Result<MsfIndex, MsfIndexError>)
        requires
            lo <= hi <= b@.len(),
        ensures
            match parse_msf(b@.subrange(lo as int, hi as int)) {
                Ok(t) => r is Ok && r->Ok_0.fields() == t,
                Err(e) => r == Err::<MsfIndex, MsfIndexError>(e),
            },
    {
        let (a, z) = trim_bounds(b, lo, hi);
        let ghost t = b@.subrange(a as int, z as int);
        assert(t == trim(b@.subrange(lo as int, hi as int)));
        let i = find_byte(b, a, z, a, 58);
        if i >= z {
            return Err(MsfIndexError::InvalidMsfError);
        }
        let j = find_byte(b, a, z, i + 1, 58);
        if j >= z {
            return Err(MsfIndexError::InvalidMsfError);
        }
        let k = find_byte(b, a, z, j + 1, 58);
        if k < z {
            return Err(MsfIndexError::InvalidMsfError);
        }
        assert(t.subrange(0, i - a) =~= b@.subrange(a as int, i as int));
        assert(t.subrange(i + 1 - a, j - a) =~= b@.subrange(i + 1, j as int));
        assert(t.subrange(j + 1 - a, t.len() as int) =~= b@.subrange(j + 1, z as int));
        let m = parse_decimal(b, a, i, 255);
        let s = parse_decimal(b, i + 1, j, 255);
        let f = parse_decimal(b, j + 1, z, 255);
        match (m, s, f) {
            (Some(m), Some(s), Some(f)) => MsfIndex::new(m as u8, s as u8, f as u8),
            _ => Err(MsfIndexError::ParseIntError),
        }
    }

    /// Parses `MM:SS:FF`, surrounding white space tolerated.
    pub fn try_from_str(s: &str) -> (r: Result<MsfIndex, MsfIndexError>)
        ensures
            match parse_msf(s.spec_bytes()) {
                Ok(t) => r is Ok && r->Ok_0.fields() == t,
                Err(e) => r == Err::<MsfIndex, MsfIndexError>(e),
            },
    {
        Self::try_from_bytes(s.as_bytes())
    }

    pub fn from_lba(sector_no: u32) -> (r: Result<MsfIndex, MsfIndexError>)
        ensures
            sector_no < MSF_LBA_LIMIT ==> r is Ok && r->Ok_0.fields() == lba_fields(
                sector_no as nat,
            ),
            sector_no >= MSF_LBA_LIMIT ==> r == Err::<MsfIndex, MsfIndexError>(
                MsfIndexError::OutOfRangeError,
            ),
    {
        let m = sector_no / FRAMES_PER_MINUTE;
        let rest = sector_no % FRAMES_PER_MINUTE;
        let s = rest / FRAMES_PER_SECOND;
        let f = rest % FRAMES_PER_SECOND;
        assert(f == sector_no % 75) by (nonlinear_arith)
            requires
                rest == sector_no % 4500,
                f == rest % 75,
        {
            assert(4500 == 75 * 60);
            vstd::arithmetic::div_mod::lemma_mod_mod(sector_no as int, 75, 60);
        }
        if m > 99 {
            return Err(MsfIndexError::OutOfRangeError);
        }
        MsfIndex::new(m as u8, s as u8, f as u8)
    }

    pub fn to_lba(&self) -> (r: u32)
        ensures
            r == self.lba(),
            r < MSF_LBA_LIMIT,
    {
        proof {
            use_type_invariant(self);
        }
        let MsfIndex(m, s, f) = *self;
        m as u32 * 60 * 75 + s as u32 * 75 + f as u32
    }

    /// The fields converted to binary-coded decimal: 99 becomes 0x99.
    pub fn to_bcd_values(&self) -> (r: (u8, u8, u8))
        ensures
            r == (bcd_of(self.minutes()) as u8, bcd_of(self.seconds()) as u8, bcd_of(
                self.frames(),
            ) as u8),
    {
        proof {
            use_type_invariant(self);
        }
        let MsfIndex(m, s, f) = *self;
        let m_bcd = (m / 10) * 16 + m % 10;
        let s_bcd = (s / 10) * 16 + s % 10;
        let f_bcd = (f / 10) * 16 + f % 10;
        (m_bcd, s_bcd, f_bcd)
    }

    /// The fields as (minutes, seconds, frames).
    pub fn to_raw_values(&self) -> (r: (u8, u8, u8))
        ensures
            (r.0 as nat, r.1 as nat, r.2 as nat) == self.fields(),
    {
        let MsfIndex(m, s, f) = *self;
        (m, s, f)
    }

    /// Converting a valid time code to its address and back gives it again,
    /// and every address lies below `MSF_LBA_LIMIT`.
    pub proof fn lemma_lba_round_trip(x: MsfIndex)
        requires
            x.valid(),
        ensures
            x.lba() < MSF_LBA_LIMIT,
            lba_fields(x.lba()) == x.fields(),
            forall|y: MsfIndex| #[trigger] y.fields() == lba_fields(x.lba()) ==> y == x,
    {
        let (m, s, f) = (x.minutes(), x.seconds(), x.frames());
        assert(((m * 60 + s) * 75 + f) / 4500 == m && ((m * 60 + s) * 75 + f) % 4500 / 75 == s
            && ((m * 60 + s) * 75 + f) % 75 == f) by (nonlinear_arith)
            requires
                m <= 99,
                s <= 59,
                f <= 74,
        {
            vstd::arithmetic::div_mod::lemma_fundamental_div_mod_converse(
                (m * 4500 + s * 75 + f) as int,
                4500,
                m as int,
                (s * 75 + f) as int,
            );
            vstd::arithmetic::div_mod::lemma_fundamental_div_mod_converse(
                (s * 75 + f) as int,
                75,
                s as int,
                f as int,
            );
            vstd::arithmetic::div_mod::lemma_fundamental_div_mod_converse(
                (m * 4500 + s * 75 + f) as int,
                75,
                (m * 60 + s) as int,
                f as int,
            );
        }
    }

    /// Decoding valid binary-coded decimal fields and encoding them again gives
    /// the same bytes.
    pub proof fn lemma_bcd_round_trip(m_bcd: u8, s_bcd: u8, f_bcd: u8)
        requires
            bcd_ok(m_bcd),
            bcd_ok(s_bcd),
            bcd_ok(f_bcd),
        ensures
            bcd_of(bcd_value(m_bcd)) == m_bcd,
            bcd_of(bcd_value(s_bcd)) == s_bcd,
            bcd_of(bcd_value(f_bcd)) == f_bcd,
    {
        lemma_bcd_byte(m_bcd);
        lemma_bcd_byte(s_bcd);
        lemma_bcd_byte(f_bcd);
    }
}

proof fn lemma_bcd_byte(b: u8)
    requires
        bcd_ok(b),
    ensures
        bcd_of(bcd_value(b)) == b,
{
    let hi = (b / 16) as nat;
    let lo = (b % 16) as nat;
    assert((hi * 10 + lo) / 10 == hi && (hi * 10 + lo) % 10 == lo) by (nonlinear_arith)
        requires
            lo <= 9,
    {
        vstd::arithmetic::div_mod::lemma_fundamental_div_mod_converse(
            (hi * 10 + lo) as int,
            10,
            hi as int,
            lo as int,
        );
    }
}

/// Position of the first `c` in `s[start..hi]`, or `hi` when there is none.
pub fn find_byte(s: &[u8], lo: usize, hi: usize, start: usize, c: u8) -> (r: usize)
    requires
        lo <= start <= hi <= s@.len(),
    ensures
        r == lo + find_from(s@.subrange(lo as int, hi as int), c, start - lo),
        start <= r <= hi,
{
    let ghost t = s@.subrange(lo as int, hi as int);
    let mut i = start;
    while i < hi && s[i] != c
        invariant
            lo <= start <= i <= hi <= s@.len(),
            t == s@.subrange(lo as int, hi as int),
            find_from(t, c, start - lo) == find_from(t, c, i - lo),
        decreases hi - i,
    {
        i = i + 1;
    }
    i
}

} // verus!
