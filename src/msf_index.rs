//! Time codes with arithmetic: sums, differences and byte offsets, with an
//! error type of their own.
use vstd::prelude::*;
use vstd::string::StringSliceAdditionalSpecFns;
use crate::index::{bcd_of, bcd_ok, bcd_value, lba_fields, msf_in_range, msf_lba, parse_msf, MsfIndexError, MSF_LBA_LIMIT};

verus! {

#[derive(Clone, Copy, Debug, PartialEq, Eq, Structural)]
pub enum MsfParseError {
    ParseIntError,
    OutOfRangeError,
    InvalidMsfError,
}

pub open spec fn parse_error_of(e: MsfIndexError) -> MsfParseError {
    match e {
        MsfIndexError::ParseIntError => MsfParseError::ParseIntError,
        MsfIndexError::OutOfRangeError => MsfParseError::OutOfRangeError,
        MsfIndexError::InvalidMsfError => MsfParseError::InvalidMsfError,
    }
}

/// MsfIndex(minutes, seconds, frames), not BCD encoded.
#[derive(Clone, Copy, Debug, PartialEq, Eq, Structural, PartialOrd, Ord, Hash)]
pub struct MsfIndex(u8, u8, u8);

#[derive(Clone, Copy, Debug, PartialEq, Eq, Structural)]
pub enum MsfOperation {
    Add,
    Sub,
}

/// An addition or subtraction of two time codes left the range of time codes.
#[derive(Clone, Copy, Debug, PartialEq, Eq, Structural)]
pub struct MsfOverflow(pub MsfOperation, pub MsfIndex, pub MsfIndex);

impl MsfIndex {
    #[verifier::type_invariant]
    spec fn fields_in_range(self) -> bool {
        msf_in_range(self.0 as nat, self.1 as nat, self.2 as nat)
    }

    pub closed spec fn fields(self) -> (nat, nat, nat) {
        (self.0 as nat, self.1 as nat, self.2 as nat)
    }

    pub open spec fn lba(self) -> nat {
        msf_lba(self.fields().0, self.fields().1, self.fields().2)
    }

    pub fn new(m: u8, s: u8, f: u8) -> (r: Result<MsfIndex, MsfParseError>)
        ensures
            msf_in_range(m as nat, s as nat, f as nat) ==> r is Ok && r->Ok_0.fields() == (
            m as nat, s as nat, f as nat),
            !msf_in_range(m as nat, s as nat, f as nat) ==> r == Err::<MsfIndex, MsfParseError>(
                MsfParseError::OutOfRangeError,
            ),
    {
        if m > 99 || s > 59 || f > 74 {
            Err(MsfParseError::OutOfRangeError)
        } else {
            Ok(MsfIndex(m, s, f))
        }
    }

    fn from_current(x: crate::index::MsfIndex) -> (r: MsfIndex)
        ensures
            r.fields() == x.fields(),
    {
        x.lemma_valid();
        let (m, s, f) = x.to_raw_values();
        MsfIndex(m, s, f)
    }

    pub fn from_bcd_values(m_bcd: u8, s_bcd: u8, f_bcd: u8) -> (r: Result<MsfIndex, MsfParseError>)
        ensures
            bcd_ok(m_bcd) && bcd_ok(s_bcd) && bcd_ok(f_bcd) && msf_in_range(
                bcd_value(m_bcd),
                bcd_value(s_bcd),
                bcd_value(f_bcd),
            ) ==> r is Ok && r->Ok_0.fields() == (
            bcd_value(m_bcd), bcd_value(s_bcd), bcd_value(f_bcd)),
            !(bcd_ok(m_bcd) && bcd_ok(s_bcd) && bcd_ok(f_bcd) && msf_in_range(
                bcd_value(m_bcd),
                bcd_value(s_bcd),
                bcd_value(f_bcd),
            )) ==> r == Err::<MsfIndex, MsfParseError>(MsfParseError::OutOfRangeError),
    {
        match crate::index::MsfIndex::from_bcd_values(m_bcd, s_bcd, f_bcd) {
            Ok(x) => Ok(Self::from_current(x)),
            Err(_) => Err(MsfParseError::OutOfRangeError),
        }
    }

    /// Parses `MM:SS:FF`, surrounding white space tolerated.
    pub fn try_from_str(s: &str) -> (r: Result<MsfIndex, MsfParseError>)
        ensures
            match parse_msf(s.spec_bytes()) {
                Ok(t) => r is Ok && r->Ok_0.fields() == t,
                Err(e) => r == Err::<MsfIndex, MsfParseError>(parse_error_of(e)),
            },
    {
        match crate::index::MsfIndex::try_from_str(s) {
            Ok(x) => Ok(Self::from_current(x)),
            Err(MsfIndexError::ParseIntError) => Err(MsfParseError::ParseIntError),
            Err(MsfIndexError::OutOfRangeError) => Err(MsfParseError::OutOfRangeError),
            Err(MsfIndexError::InvalidMsfError) => Err(MsfParseError::InvalidMsfError),
        }
    }

    pub fn from_sectors(sectors: usize) -> (r: Result<MsfIndex, MsfParseError>)
        ensures
            sectors < MSF_LBA_LIMIT ==> r is Ok && r->Ok_0.fields() == lba_fields(sectors as nat),
            sectors >= MSF_LBA_LIMIT ==> r == Err::<MsfIndex, MsfParseError>(
                MsfParseError::OutOfRangeError,
            ),
    {
        if sectors >= MSF_LBA_LIMIT as usize {
            return Err(MsfParseError::OutOfRangeError);
        }
        match crate::index::MsfIndex::from_lba(sectors as u32) {
            Ok(x) => Ok(Self::from_current(x)),
            Err(_) => Err(MsfParseError::OutOfRangeError),
        }
    }

    /// Byte offset of the sector in a file of 2352-byte sectors.
    pub fn to_offset(&self) -> (r: usize)
        ensures
            r == self.lba() * 2352,
    {
        self.to_sectors() * 2352
    }

    pub fn to_sectors(&self) -> (r: usize)
        ensures
            r == self.lba(),
            r < MSF_LBA_LIMIT,
    {
        proof {
            use_type_invariant(self);
        }
        let MsfIndex(m, s, f) = *self;
        m as usize * 60 * 75 + s as usize * 75 + f as usize
    }

    /// The time code one frame later.
    pub fn next(&self) -> (r: Result<MsfIndex, MsfOverflow>)
        ensures
            self.lba() + 1 < MSF_LBA_LIMIT ==> r is Ok && r->Ok_0.fields() == lba_fields(self.lba() + 1),
            self.lba() + 1 >= MSF_LBA_LIMIT ==> r is Err,
    {
        let one = MsfIndex::new(0, 0, 1).unwrap();
        self.add_msf(one)
    }

    pub fn to_bcd_values(&self) -> (r: (u8, u8, u8))
        ensures
            r == (bcd_of(self.fields().0) as u8, bcd_of(self.fields().1) as u8, bcd_of(self.fields().2) as u8),
    {
        proof {
            use_type_invariant(self);
        }
        let MsfIndex(m, s, f) = *self;
        ((m / 10) * 16 + m % 10, (s / 10) * 16 + s % 10, (f / 10) * 16 + f % 10)
    }

    /// The fields as (minutes, seconds, frames).
    pub fn to_raw_values(&self) -> (r: (u8, u8, u8))
        ensures
            (r.0 as nat, r.1 as nat, r.2 as nat) == self.fields(),
    {
        let MsfIndex(m, s, f) = *self;
        (m, s, f)
    }

    /// Sum of two time codes, carrying frames into seconds and seconds into minutes.
    pub fn add_msf(self, other: MsfIndex) -> (r: Result<MsfIndex, MsfOverflow>)
        ensures
            self.lba() + other.lba() < MSF_LBA_LIMIT ==> r is Ok && r->Ok_0.fields() == lba_fields(
                self.lba() + other.lba(),
            ),
            self.lba() + other.lba() >= MSF_LBA_LIMIT ==> r == Err::<MsfIndex, MsfOverflow>(
                MsfOverflow(MsfOperation::Add, self, other),
            ),
    {
        let a = self.to_sectors();
        let b = other.to_sectors();
        if a + b >= MSF_LBA_LIMIT as usize {
            return Err(MsfOverflow(MsfOperation::Add, self, other));
        }
        Ok(Self::from_sectors(a + b).unwrap())
    }

    /// Difference of two time codes; the second may not be the later one.
    pub fn sub_msf(self, other: MsfIndex) -> (r: Result<MsfIndex, MsfOverflow>)
        ensures
            other.lba() <= self.lba() ==> r is Ok && r->Ok_0.fields() == lba_fields(
                (self.lba() - other.lba()) as nat,
            ),
            other.lba() > self.lba() ==> r == Err::<MsfIndex, MsfOverflow>(
                MsfOverflow(MsfOperation::Sub, self, other),
            ),
    {
        let a = self.to_sectors();
        let b = other.to_sectors();
        if b > a {
            return Err(MsfOverflow(MsfOperation::Sub, self, other));
        }
        Ok(Self::from_sectors(a - b).unwrap())
    }
}

/// The time code at a sector address, which must lie below `MSF_LBA_LIMIT`.
pub closed spec fn msf_at(n: nat) -> MsfIndex {
    MsfIndex(lba_fields(n).0 as u8, lba_fields(n).1 as u8, lba_fields(n).2 as u8)
}

/// What adding two time codes gives.
pub open spec fn msf_sum(a: MsfIndex, b: MsfIndex) -> Result<MsfIndex, MsfOverflow> {
    if a.lba() + b.lba() < MSF_LBA_LIMIT {
        Ok(msf_at(a.lba() + b.lba()))
    } else {
        Err(MsfOverflow(MsfOperation::Add, a, b))
    }
}

/// What subtracting a time code from another gives.
pub open spec fn msf_difference(a: MsfIndex, b: MsfIndex) -> Result<MsfIndex, MsfOverflow> {
    if b.lba() <= a.lba() {
        Ok(msf_at((a.lba() - b.lba()) as nat))
    } else {
        Err(MsfOverflow(MsfOperation::Sub, a, b))
    }
}

/// The time code at an address below `MSF_LBA_LIMIT` has the fields of that
/// address and lies at it: what `+` and `-` give is the sector sum and the
/// sector difference.
pub proof fn lemma_msf_at_fields(n: nat)
    requires
        n < MSF_LBA_LIMIT,
    ensures
        msf_at(n).fields() == lba_fields(n),
        msf_at(n).lba() == n,
{
    assert(n / 4500 < 100 && n % 4500 / 75 < 60 && n % 75 < 75) by (nonlinear_arith)
        requires
            n < 450000,
    {
    }
    crate::cue::lemma_lba_of_fields(n);
}

proof fn lemma_msf_at(x: MsfIndex, n: nat)
    requires
        n < MSF_LBA_LIMIT,
        x.fields() == lba_fields(n),
    ensures
        x == msf_at(n),
{
    assert(n / 4500 < 100 && n % 4500 / 75 < 60 && n % 75 < 75) by (nonlinear_arith)
        requires
            n < 450000,
    {
    }
}

impl std::ops::Add for MsfIndex {
    type Output = Result<MsfIndex, MsfOverflow>;

    fn add(self, other: MsfIndex) -> (r: Result<MsfIndex, MsfOverflow>)
        ensures
            self.lba() + other.lba() < MSF_LBA_LIMIT ==> r is Ok && r->Ok_0.fields() == lba_fields(
                self.lba() + other.lba(),
            ),
            self.lba() + other.lba() >= MSF_LBA_LIMIT ==> r == Err::<MsfIndex, MsfOverflow>(
                MsfOverflow(MsfOperation::Add, self, other),
            ),
    {
        let r = self.add_msf(other);
        proof {
            if r is Ok {
                lemma_msf_at(r->Ok_0, self.lba() + other.lba());
            }
        }
        r
    }
}

impl vstd::std_specs::ops::AddSpecImpl for MsfIndex {
    open spec fn obeys_add_spec() -> bool {
        true
    }

    open spec fn add_req(self, rhs: MsfIndex) -> bool {
        true
    }

    open spec fn add_spec(self, rhs: MsfIndex) -> Result<MsfIndex, MsfOverflow> {
        msf_sum(self, rhs)
    }
}

impl std::ops::Sub for MsfIndex {
    type Output = Result<MsfIndex, MsfOverflow>;

    fn sub(self, other: MsfIndex) -> (r: Result<MsfIndex, MsfOverflow>)
        ensures
            other.lba() <= self.lba() ==> r is Ok && r->Ok_0.fields() == lba_fields(
                (self.lba() - other.lba()) as nat,
            ),
            other.lba() > self.lba() ==> r == Err::<MsfIndex, MsfOverflow>(
                MsfOverflow(MsfOperation::Sub, self, other),
            ),
    {
        let _ = self.to_sectors();
        let r = self.sub_msf(other);
        proof {
            if r is Ok {
                lemma_msf_at(r->Ok_0, (self.lba() - other.lba()) as nat);
            }
        }
        r
    }
}

impl vstd::std_specs::ops::SubSpecImpl for MsfIndex {
    open spec fn obeys_sub_spec() -> bool {
        true
    }

    open spec fn sub_req(self, rhs: MsfIndex) -> bool {
        true
    }

    open spec fn sub_spec(self, rhs: MsfIndex) -> Result<MsfIndex, MsfOverflow> {
        msf_difference(self, rhs)
    }
}

} // verus!
