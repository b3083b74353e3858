//! Auto-detection of which title a container belongs to.
//!
//! Streams through the chunk headers only, never decoding a payload,
//! and tallies the magic numbers each title uses.  Trailing bytes too
//! short for a full magic end the scan cleanly, as a reader at end of
//! stream would.

use crate::error::Error;
use crate::wire::{read_u32_le, read_u64_le};
use vstd::bytes::{spec_u32_from_le_bytes, spec_u64_from_le_bytes};
use vstd::prelude::*;

verus! {

/// The titles a container can be recognized as.
#[derive(Clone, Copy, Debug, PartialEq, Eq, Structural)]
pub enum GameDetection {
    /// Horizon Zero Dawn magics only.
    Hzd,
    /// Death Stranding magics only.
    Ds,
    /// Magics of more than one title: treated as a hard failure.
    Mixed,
    /// No known magic at all: treated as a hard failure.
    Unknown,
}

/// Scans the headers from `pos`, returning the per-title tallies.
pub open spec fn spec_scan(d: Seq<u8>, pos: int, hzd: int, ds: int) -> Result<(int, int), Error>
    decreases d.len() - pos,
    when 0 <= pos <= d.len()
{
    if pos + 8 > d.len() {
        Ok((hzd, ds))
    } else if pos + 12 > d.len() {
        Err(Error::UnexpectedEof)
    } else {
        let magic = spec_u64_from_le_bytes(d.subrange(pos, pos + 8));
        let size = spec_u32_from_le_bytes(d.subrange(pos + 8, pos + 12)) as int;
        let h2 = if magic == crate::hzd::LOCALIZED_MAGIC || magic == crate::hzd::CUTSCENE_MAGIC {
            hzd + 1
        } else {
            hzd
        };
        let d2 = if magic == crate::ds::LOCALIZED_MAGIC {
            ds + 1
        } else {
            ds
        };
        let next = if pos + 12 + size > d.len() {
            d.len() as int
        } else {
            pos + 12 + size
        };
        spec_scan(d, next, h2, d2)
    }
}

/// The verdict the tallies force.
pub open spec fn spec_verdict(hzd: int, ds: int) -> GameDetection {
    if hzd == 0 && ds == 0 {
        GameDetection::Unknown
    } else if ds == 0 {
        GameDetection::Hzd
    } else if hzd == 0 {
        GameDetection::Ds
    } else {
        GameDetection::Mixed
    }
}

/// Detects which title a container is from by its magic numbers alone.
pub fn detect_game(data: &Vec<u8>) -> (r: Result<GameDetection, Error>)
    ensures
        match r {
            Ok(g) => spec_scan(data@, 0, 0, 0) matches Ok(c) && g == spec_verdict(c.0, c.1),
            Err(e) => spec_scan(data@, 0, 0, 0) == Err::<(int, int), _>(e),
        },
{
    let n = data.len();
    let mut pos: usize = 0;
    let mut hzd: u64 = 0;
    let mut ds: u64 = 0;
    while n - pos >= 8
        invariant
            pos <= n == data@.len(),
            12 * (hzd as int) <= pos,
            12 * (ds as int) <= pos,
            spec_scan(data@, 0, 0, 0) == spec_scan(data@, pos as int, hzd as int, ds as int),
        decreases n - pos,
    {
        if n - pos < 12 {
            return Err(Error::UnexpectedEof);
        }
        let magic = read_u64_le(data, pos);
        let size = read_u32_le(data, pos + 8) as usize;
        if magic == crate::hzd::LOCALIZED_MAGIC || magic == crate::hzd::CUTSCENE_MAGIC {
            hzd = hzd + 1;
        }
        if magic == crate::ds::LOCALIZED_MAGIC {
            ds = ds + 1;
        }
        if size > n - (pos + 12) {
            pos = n;
        } else {
            pos = pos + 12 + size;
        }
    }
    let verdict = if hzd == 0 && ds == 0 {
        GameDetection::Unknown
    } else if ds == 0 {
        GameDetection::Hzd
    } else if hzd == 0 {
        GameDetection::Ds
    } else {
        GameDetection::Mixed
    };
    Ok(verdict)
}

} // verus!
