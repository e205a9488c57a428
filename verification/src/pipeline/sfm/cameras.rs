//! `cameras.bin`: the intrinsics.

use super::SfmFault;
use crate::math::camera::{is_unit, unit_matrix, Camera};
use crate::num::bytes::{u32_at, u32_of_le, u64_at, u64_of_le};
use crate::num::single::{Double, Single, ZERO};
use std::collections::HashMap;
use vstd::prelude::*;

verus! {

broadcast use vstd::std_specs::hash::group_hash_axioms;

/// How many parameters each camera model has.
pub open spec fn model_params(model_id: int) -> nat {
    if model_id == 0 {
        3  // simple pinhole: f, cx, cy
    } else if model_id == 1 {
        4  // pinhole: fx, fy, cx, cy
    } else if model_id == 2 {
        4  // simple radial: f, cx, cy, k1
    } else if model_id == 3 {
        5  // radial: f, cx, cy, k1, k2
    } else if model_id == 4 {
        8  // OpenCV: fx, fy, cx, cy, k1, k2, p1, p2
    } else {
        4
    }
}

pub fn colmap_camera_params(model_id: i32) -> (r: usize)
    ensures
        r == model_params(model_id as int),
{
    match model_id {
        0 => 3,
        1 => 4,
        2 => 4,
        3 => 5,
        4 => 8,
        _ => 4,
    }
}

/// A number of 32 bits, read with a sign.
pub open spec fn signed_of(x: u32) -> int {
    if x <= i32::MAX {
        x as int
    } else {
        x - 0x1_0000_0000
    }
}

fn to_signed(x: u32) -> (r: i32)
    ensures
        r == signed_of(x),
{
    if x <= i32::MAX as u32 {
        x as i32
    } else {
        -((u32::MAX - x) as i32) - 1
    }
}

/// What the record of a camera says.
pub struct CameraRecord {
    pub id: u32,
    pub width: u32,
    pub height: u32,
    pub fx: Single,
    pub fy: Single,
    pub cx: Single,
    pub cy: Single,
}

/// Parameter `i` of the camera record at byte `at`, in single precision.
pub open spec fn camera_param(data: Seq<u8>, at: int, i: int) -> Single {
    (Double { bits: u64_of_le(data.skip(at + 24 + 8 * i)) }).narrowed()
}

/// The camera record at byte `at`, and where the next one begins.  Models with two focal
/// lengths are the pinhole and the OpenCV model.  A size with a zero in it is replaced by
/// `width` and `height`; of a size, the lower 32 bits count.
pub open spec fn camera_at(data: Seq<u8>, at: int, width: u32, height: u32) -> Result<
    (CameraRecord, int),
    SfmFault,
> {
    let model = signed_of(u32_of_le(data.skip(at + 4)));
    let w = u64_of_le(data.skip(at + 8)) % 0x1_0000_0000;
    let h = u64_of_le(data.skip(at + 16)) % 0x1_0000_0000;
    let next = at + 24 + 8 * model_params(model);
    if at + 24 > data.len() || next > data.len() {
        Err(SfmFault::End)
    } else {
        let two = model == 1 || model == 4;
        let shift: int = if two {
            1
        } else {
            0
        };
        Ok(
            (
                CameraRecord {
                    id: u32_of_le(data.skip(at)),
                    width: if w > 0 && h > 0 {
                        w as u32
                    } else {
                        width
                    },
                    height: if w > 0 && h > 0 {
                        h as u32
                    } else {
                        height
                    },
                    fx: camera_param(data, at, 0),
                    fy: camera_param(data, at, shift),
                    cx: camera_param(data, at, shift + 1),
                    cy: camera_param(data, at, shift + 2),
                },
                next,
            ),
        )
    }
}

/// A camera without a pose, a distortion or an image, as a record describes it.
pub open spec fn is_intrinsics(c: Camera<Single>, r: CameraRecord) -> bool {
    let zero = Single { bits: ZERO };
    &&& c.width == r.width
    &&& c.height == r.height
    &&& c.fx == r.fx
    &&& c.fy == r.fy
    &&& c.cx == r.cx
    &&& c.cy == r.cy
    &&& is_unit(c.c2w)
    &&& c.distortion@ == seq![zero, zero, zero]
    &&& c.image_path is None
}

/// The records `done`, by their ids, followed by `n` records from byte `at` on; of two with
/// the same id the later one counts.
pub open spec fn cameras_from(
    data: Seq<u8>,
    at: int,
    n: nat,
    width: u32,
    height: u32,
    done: Map<u32, CameraRecord>,
) -> Result<Map<u32, CameraRecord>, SfmFault>
    decreases n,
{
    if n == 0 {
        Ok(done)
    } else {
        match camera_at(data, at, width, height) {
            Ok((c, next)) => cameras_from(
                data,
                next,
                (n - 1) as nat,
                width,
                height,
                done.insert(c.id, c),
            ),
            Err(e) => Err(e),
        }
    }
}

/// The records of a file: a count, then that many records.
pub open spec fn cameras_of(data: Seq<u8>, width: u32, height: u32) -> Result<
    Map<u32, CameraRecord>,
    SfmFault,
> {
    if data.len() < 8 {
        Err(SfmFault::End)
    } else {
        cameras_from(data, 8, u64_of_le(data) as nat, width, height, Map::empty())
    }
}

/// `cameras` holds the cameras that the records describe.
pub open spec fn describes(
    records: Map<u32, CameraRecord>,
    cameras: Map<u32, Camera<Single>>,
) -> bool {
    &&& cameras.dom() == records.dom()
    &&& forall|id: u32| #[trigger]
        cameras.dom().contains(id) ==> is_intrinsics(cameras[id], records[id])
}

fn read_camera(data: &[u8], at: usize, width: u32, height: u32) -> (r: Result<
    (CameraRecord, usize),
    SfmFault,
>)
    requires
        at <= data.len(),
    ensures
        match (r, camera_at(data@, at as int, width, height)) {
            (Ok(a), Ok(b)) => a.0 == b.0 && a.1 == b.1 && a.1 <= data.len(),
            (Err(a), Err(b)) => a == b,
            _ => false,
        },
{
    if data.len() - at < 24 {
        return Err(SfmFault::End);
    }
    let model_id = to_signed(u32_at(data, at + 4));
    let n = colmap_camera_params(model_id);
    if data.len() - at - 24 < 8 * n {
        return Err(SfmFault::End);
    }
    let w: u32 = (u64_at(data, at + 8) % 0x1_0000_0000) as u32;
    let h: u32 = (u64_at(data, at + 16) % 0x1_0000_0000) as u32;
    let (cw, ch) = if w > 0 && h > 0 {
        (w, h)
    } else {
        (width, height)
    };
    let shift: usize = if model_id == 1 || model_id == 4 {
        1
    } else {
        0
    };
    let base = at + 24;
    assert(data@.skip(base as int) =~= data@.skip(at + 24 + 8 * 0));
    let record = CameraRecord {
        id: u32_at(data, at),
        width: cw,
        height: ch,
        fx: (Double { bits: u64_at(data, base) }).narrow(),
        fy: (Double { bits: u64_at(data, base + 8 * shift) }).narrow(),
        cx: (Double { bits: u64_at(data, base + 8 * (shift + 1)) }).narrow(),
        cy: (Double { bits: u64_at(data, base + 8 * (shift + 2)) }).narrow(),
    };
    Ok((record, base + 8 * n))
}

/// Reads `cameras.bin`: the cameras by their ids.  `width` and `height` stand in for a size
/// that is not given.
pub fn parse_cameras_bin(data: &[u8], width: u32, height: u32) -> (r: Result<
    HashMap<u32, Camera<Single>>,
    SfmFault,
>)
    ensures
        match (r, cameras_of(data@, width, height)) {
            (Ok(a), Ok(b)) => describes(b, a@),
            (Err(a), Err(b)) => a == b,
            _ => false,
        },
{
    if data.len() < 8 {
        return Err(SfmFault::End);
    }
    assert(data@.skip(0) =~= data@);
    let n = u64_at(data, 0);
    let mut cameras: HashMap<u32, Camera<Single>> = HashMap::new();
    let ghost mut records: Map<u32, CameraRecord> = Map::empty();
    let mut at: usize = 8;
    let mut i: u64 = 0;
    assert(cameras@.dom() =~= records.dom());
    while i < n
        invariant
            i <= n,
            at <= data.len(),
            cameras_of(data@, width, height) == cameras_from(
                data@,
                at as int,
                (n - i) as nat,
                width,
                height,
                records,
            ),
            describes(records, cameras@),
        decreases n - i,
    {
        match read_camera(data, at, width, height) {
            Ok((record, next)) => {
                let ghost before = cameras@;
                let zero = Single { bits: ZERO };
                let camera = Camera {
                    width: record.width,
                    height: record.height,
                    fx: record.fx,
                    fy: record.fy,
                    cx: record.cx,
                    cy: record.cy,
                    c2w: unit_matrix(),
                    distortion: [zero, zero, zero],
                    image_path: None,
                };
                assert(camera.distortion@ =~= seq![zero, zero, zero]);
                assert(is_intrinsics(camera, record));
                cameras.insert(record.id, camera);
                proof {
                    records = records.insert(record.id, record);
                    assert(cameras@ == before.insert(record.id, camera));
                    assert(cameras@.dom() =~= records.dom());
                    assert forall|id: u32| #[trigger]
                        cameras@.dom().contains(id) implies is_intrinsics(
                        cameras@[id],
                        records[id],
                    ) by {
                        if id != record.id {
                            assert(before.dom().contains(id));
                        }
                    }
                }
                at = next;
            },
            Err(e) => {
                return Err(e);
            },
        }
        i += 1;
    }
    Ok(cameras)
}

} // verus!
