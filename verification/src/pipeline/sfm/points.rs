//! `points3D.bin`: the sparse point cloud.

use super::SfmFault;
use crate::num::bytes::{u64_at, u64_of_le};
use crate::num::single::Double;
use vstd::prelude::*;

verus! {

/// A point of the sparse reconstruction.
#[derive(Clone, Copy, Debug)]
pub struct SfMPoint {
    pub id: u64,
    pub xyz: [Double; 3],
    pub rgb: [u8; 3],
    /// Reprojection error.
    pub error: Double,
    /// In how many images it was seen.
    pub track_length: usize,
}

/// The bytes of one point in memory.
pub const POINT_BYTES: u64 = 56;

/// The bytes of one point in a file, before its track.
pub const POINT_RECORD: usize = 51;

/// The point at byte `at`, and where the next one begins.  A track entry has eight bytes.
pub open spec fn point_at(data: Seq<u8>, at: int) -> Result<(SfMPoint, int), SfmFault> {
    let track = u64_of_le(data.skip(at + 43));
    if at + POINT_RECORD > data.len() {
        Err(SfmFault::End)
    } else if track * 8 > isize::MAX {
        Err(SfmFault::CapacityOverflow)
    } else if at + POINT_RECORD + track * 8 > data.len() {
        Err(SfmFault::End)
    } else {
        let p = SfMPoint {
            id: u64_of_le(data.skip(at)),
            xyz: [
                Double { bits: u64_of_le(data.skip(at + 8)) },
                Double { bits: u64_of_le(data.skip(at + 16)) },
                Double { bits: u64_of_le(data.skip(at + 24)) },
            ],
            rgb: [data[at + 32], data[at + 33], data[at + 34]],
            error: Double { bits: u64_of_le(data.skip(at + 35)) },
            track_length: track as usize,
        };
        Ok((p, at + POINT_RECORD + track * 8))
    }
}

/// The points `done`, followed by `n` points from byte `at` on.
pub open spec fn points_from(data: Seq<u8>, at: int, n: nat, done: Seq<SfMPoint>) -> Result<
    Seq<SfMPoint>,
    SfmFault,
>
    decreases n,
{
    if n == 0 {
        Ok(done)
    } else {
        match point_at(data, at) {
            Ok((p, next)) => points_from(data, next, (n - 1) as nat, done.push(p)),
            Err(e) => Err(e),
        }
    }
}

/// The points of a file: a count, then that many points.
pub open spec fn points_of(data: Seq<u8>) -> Result<Seq<SfMPoint>, SfmFault> {
    let n = u64_of_le(data);
    if data.len() < 8 {
        Err(SfmFault::End)
    } else if n * POINT_BYTES > isize::MAX {
        Err(SfmFault::CapacityOverflow)
    } else {
        points_from(data, 8, n as nat, Seq::empty())
    }
}

fn read_point(data: &[u8], at: usize) -> (r: Result<(SfMPoint, usize), SfmFault>)
    requires
        at <= data.len(),
    ensures
        match (r, point_at(data@, at as int)) {
            (Ok(a), Ok(b)) => a.0 == b.0 && a.1 == b.1 && a.1 <= data.len(),
            (Err(a), Err(b)) => a == b,
            _ => false,
        },
{
    if data.len() - at < POINT_RECORD {
        return Err(SfmFault::End);
    }
    let track = u64_at(data, at + 43);
    if track > isize::MAX as u64 / 8 {
        return Err(SfmFault::CapacityOverflow);
    }
    let skip: usize = track as usize * 8;
    if data.len() - at - POINT_RECORD < skip {
        return Err(SfmFault::End);
    }
    assert(data@.skip(at as int) =~= data@.skip(at + 0));
    let p = SfMPoint {
        id: u64_at(data, at),
        xyz: [
            Double { bits: u64_at(data, at + 8) },
            Double { bits: u64_at(data, at + 16) },
            Double { bits: u64_at(data, at + 24) },
        ],
        rgb: [data[at + 32], data[at + 33], data[at + 34]],
        error: Double { bits: u64_at(data, at + 35) },
        track_length: track as usize,
    };
    Ok((p, at + POINT_RECORD + skip))
}

/// Reads `points3D.bin`.
pub fn parse_points3d_bin(data: &[u8]) -> (r: Result<Vec<SfMPoint>, SfmFault>)
    ensures
        match (r, points_of(data@)) {
            (Ok(a), Ok(b)) => a@ == b,
            (Err(a), Err(b)) => a == b,
            _ => false,
        },
{
    if data.len() < 8 {
        return Err(SfmFault::End);
    }
    assert(data@.skip(0) =~= data@);
    let n = u64_at(data, 0);
    if n > isize::MAX as u64 / POINT_BYTES {
        return Err(SfmFault::CapacityOverflow);
    }
    let mut points: Vec<SfMPoint> = Vec::new();
    let mut at: usize = 8;
    let mut i: u64 = 0;
    while i < n
        invariant
            i <= n,
            at <= data.len(),
            points_of(data@) == points_from(data@, at as int, (n - i) as nat, points@),
        decreases n - i,
    {
        match read_point(data, at) {
            Ok((p, next)) => {
                points.push(p);
                at = next;
            },
            Err(e) => {
                return Err(e);
            },
        }
        i += 1;
    }
    Ok(points)
}

} // verus!
