//! Sidecar files that list the sectors whose subchannel Q data is invalid.
use vstd::prelude::*;
use std::collections::BTreeSet;
use crate::index::{bcd_ok, bcd_value, msf_in_range, msf_lba, MsfIndex, MsfIndexError};

verus! {

#[derive(Debug)]
pub enum SbiParseError {
    MsfParseError(MsfIndexError),
    IoError(std::io::Error),
    InvalidMode,
    NotAnSbiFile,
}

/// The sector address of a BCD time code, if it is a valid one.
pub open spec fn bcd_lba(m: u8, s: u8, f: u8) -> Option<nat> {
    if bcd_ok(m) && bcd_ok(s) && bcd_ok(f) && msf_in_range(bcd_value(m), bcd_value(s), bcd_value(f)) {
        Some(msf_lba(bcd_value(m), bcd_value(s), bcd_value(f)))
    } else {
        None
    }
}

/// Position `n` bytes past `i`, or the end of the data if that is nearer.
pub open spec fn skip(d: Seq<u8>, i: int, n: int) -> int {
    if i + n < d.len() {
        i + n
    } else {
        d.len() as int
    }
}

/// Walks the records from byte `i` on, adding each record's sector to `acc`.
/// A record is a BCD time code, a mode byte and a payload of 10 bytes for
/// mode 1 and 3 bytes for modes 2 and 3; a record cut short ends the walk.
pub open spec fn sbi_records(d: Seq<u8>, i: int, acc: Set<u32>) -> Result<Set<u32>, SbiParseError>
    decreases d.len() - i,
{
    if i < 0 || i + 3 >= d.len() {
        Ok(acc)
    } else {
        match bcd_lba(d[i], d[i + 1], d[i + 2]) {
            None => Err(SbiParseError::MsfParseError(MsfIndexError::OutOfRangeError)),
            Some(lba) => {
                let mode = d[i + 3];
                if mode == 1 {
                    sbi_records(d, skip(d, i, 14), acc.insert(lba as u32))
                } else if mode == 2 || mode == 3 {
                    sbi_records(d, skip(d, i, 7), acc.insert(lba as u32))
                } else {
                    Err(SbiParseError::InvalidMode)
                }
            },
        }
    }
}

/// The sectors that an SBI file lists: after the magic `SBI\0`, its records.
pub open spec fn sbi_lbas(d: Seq<u8>) -> Result<Set<u32>, SbiParseError> {
    if d.len() < 4 || d.subrange(0, 4) != seq![83u8, 66, 73, 0] {
        Err(SbiParseError::NotAnSbiFile)
    } else {
        sbi_records(d, 4, Set::empty())
    }
}

/// Reads the contents of an SBI file.
pub fn parse_sbi(d: &[u8]) -> (r: Result<BTreeSet<u32>, SbiParseError>)
    ensures
        match sbi_lbas(d@) {
            Ok(s) => r is Ok && r->Ok_0@ == s,
            Err(e) => r == Err::<BTreeSet<u32>, SbiParseError>(e),
        },
{
    broadcast use vstd::std_specs::btree::group_btree_axioms, vstd::laws_cmp::group_laws_cmp;

    if d.len() < 4 || d[0] != 83 || d[1] != 66 || d[2] != 73 || d[3] != 0 {
        proof {
            if d@.len() >= 4 {
                assert(d@.subrange(0, 4) != seq![83u8, 66, 73, 0]) by {
                    if d@.subrange(0, 4) == seq![83u8, 66, 73, 0] {
                        assert(d@.subrange(0, 4)[0] == d@[0]);
                        assert(d@.subrange(0, 4)[1] == d@[1]);
                        assert(d@.subrange(0, 4)[2] == d@[2]);
                        assert(d@.subrange(0, 4)[3] == d@[3]);
                    }
                }
            }
        }
        return Err(SbiParseError::NotAnSbiFile);
    }
    assert(d@.subrange(0, 4) =~= seq![83u8, 66, 73, 0]);
    let mut lbas: BTreeSet<u32> = BTreeSet::new();
    let mut i: usize = 4;
    while i < d.len() && d.len() - i > 3
        invariant
            4 <= i <= d@.len(),
            sbi_lbas(d@) == sbi_records(d@, i as int, lbas@),
        decreases d@.len() - i,
    {
        let msf = match MsfIndex::from_bcd_values(d[i], d[i + 1], d[i + 2]) {
            Ok(msf) => msf,
            Err(e) => return Err(SbiParseError::MsfParseError(e)),
        };
        let lba = msf.to_lba();
        let mode = d[i + 3];
        let ghost before = lbas@;
        assert(bcd_lba(d@[i as int], d@[i + 1], d@[i + 2]) == Some(lba as nat));
        if mode == 1 {
            lbas.insert(lba);
            i = if d.len() - i > 14 { i + 14 } else { d.len() };
        } else if mode == 2 || mode == 3 {
            lbas.insert(lba);
            i = if d.len() - i > 7 { i + 7 } else { d.len() };
        } else {
            return Err(SbiParseError::InvalidMode);
        }
    }
    Ok(lbas)
}

} // verus!
