//! Cameras with their poses: intrinsics joined with registered images.
//!
//! The kernel `pose` gets the rotation and the shift that take the world to the camera, and
//! gives the rotation and the centre of the camera in the world.

use super::images::{views, ColmapImage, ImageView};
use crate::math::camera::Camera;
use crate::num::single::{Single, ONE, ZERO};
use std::collections::HashMap;
use vstd::prelude::*;

verus! {

broadcast use vstd::std_specs::hash::group_hash_axioms;

/// A camera's rotation to world space, row by row, and its centre there.
#[derive(Clone, Copy, Debug)]
pub struct Pose {
    pub rotation: [[Single; 3]; 3],
    pub center: [Single; 3],
}

/// The rotation of an image in single precision.
pub open spec fn rotation_of(i: ImageView) -> [Single; 4] {
    [i.qvec[0].narrowed(), i.qvec[1].narrowed(), i.qvec[2].narrowed(), i.qvec[3].narrowed()]
}

/// The translation of an image in single precision.
pub open spec fn translation_of(i: ImageView) -> [Single; 3] {
    [i.tvec[0].narrowed(), i.tvec[1].narrowed(), i.tvec[2].narrowed()]
}

/// Entry `col` of row `row` of the matrix of a pose: the rotation, with the centre as the
/// last column and `0 0 0 1` as the last row.
pub open spec fn pose_entry(p: Pose, row: int, col: int) -> Single {
    if row < 3 && col < 3 {
        p.rotation[row][col]
    } else if row < 3 {
        p.center[row]
    } else if col < 3 {
        Single { bits: ZERO }
    } else {
        Single { bits: ONE }
    }
}

pub open spec fn is_matrix_of(p: Pose, m: [[Single; 4]; 4]) -> bool {
    forall|row: int, col: int|
        0 <= row < 4 && 0 <= col < 4 ==> #[trigger] m[row][col] == pose_entry(p, row, col)
}

/// `c` is the camera `intr`, posed as `p` and with the image called `name`.
pub open spec fn is_posed(c: Camera<Single>, intr: Camera<Single>, p: Pose, name: Seq<char>) -> bool {
    &&& c.width == intr.width
    &&& c.height == intr.height
    &&& c.fx == intr.fx
    &&& c.fy == intr.fy
    &&& c.cx == intr.cx
    &&& c.cy == intr.cy
    &&& c.distortion == intr.distortion
    &&& is_matrix_of(p, c.c2w)
    &&& c.image_path matches Some(s) && s@ == name
}

/// `c` can be the camera of the image `i`.
pub open spec fn camera_of<F: Fn([Single; 4], [Single; 3]) -> Pose>(
    pose: F,
    i: ImageView,
    intrinsics: Map<u32, Camera<Single>>,
    c: Camera<Single>,
) -> bool {
    exists|p: Pose| #[trigger]
        call_ensures(pose, (rotation_of(i), translation_of(i)), p) && is_posed(
            c,
            intrinsics[i.camera_id],
            p,
            i.name,
        )
}

/// Which of the first `n` images were taken by a known camera, in order.
pub open spec fn known(images: Seq<ImageView>, ids: Set<u32>, n: nat) -> Seq<int>
    decreases n,
{
    if n == 0 {
        Seq::empty()
    } else {
        let fewer = known(images, ids, (n - 1) as nat);
        if ids.contains(images[n - 1].camera_id) {
            fewer.push(n - 1)
        } else {
            fewer
        }
    }
}

fn matrix_of(p: &Pose) -> (m: [[Single; 4]; 4])
    ensures
        is_matrix_of(*p, m),
{
    let r = p.rotation;
    let c = p.center;
    let o = Single { bits: ZERO };
    let m0 = [r[0][0], r[0][1], r[0][2], c[0]];
    let m1 = [r[1][0], r[1][1], r[1][2], c[1]];
    let m2 = [r[2][0], r[2][1], r[2][2], c[2]];
    let m3 = [o, o, o, Single { bits: ONE }];
    let m = [m0, m1, m2, m3];
    assert forall|row: int, col: int| 0 <= row < 4 && 0 <= col < 4 implies #[trigger] m[row][col]
        == pose_entry(*p, row, col) by {
        assert(m[0] == m0 && m[1] == m1 && m[2] == m2 && m[3] == m3);
        assert(row == 0 || row == 1 || row == 2 || row == 3);
        assert(col == 0 || col == 1 || col == 2 || col == 3);
    }
    m
}

/// Joins the registered images with the intrinsics of their cameras.  An image whose camera
/// is not known is left out.
pub fn build_cameras<F: Fn([Single; 4], [Single; 3]) -> Pose>(
    pose: F,
    images: &[ColmapImage],
    intrinsics: &HashMap<u32, Camera<Single>>,
) -> (r: Vec<Camera<Single>>)
    requires
        forall|q: [Single; 4], t: [Single; 3]| call_requires(pose, (q, t)),
    ensures
        ({
            let kept = known(views(images@), intrinsics@.dom(), images@.len());
            &&& r.len() == kept.len()
            &&& forall|k: int|
                0 <= k < r.len() ==> camera_of(
                    pose,
                    images[kept[k]]@,
                    intrinsics@,
                    #[trigger] r[k],
                )
        }),
{
    let mut r: Vec<Camera<Single>> = Vec::new();
    let ghost ids = intrinsics@.dom();
    for i in 0..images.len()
        invariant
            forall|q: [Single; 4], t: [Single; 3]| call_requires(pose, (q, t)),
            ids == intrinsics@.dom(),
            r.len() == known(views(images@), ids, i as nat).len(),
            forall|k: int|
                0 <= k < r.len() ==> camera_of(
                    pose,
                    images[known(views(images@), ids, i as nat)[k]]@,
                    intrinsics@,
                    #[trigger] r[k],
                ),
    {
        let img = &images[i];
        let ghost before = known(views(images@), ids, i as nat);
        assert(views(images@)[i as int] == img@);
        if let Some(intr) = intrinsics.get(&img.camera_id) {
            let q = [
                img.qvec[0].narrow(),
                img.qvec[1].narrow(),
                img.qvec[2].narrow(),
                img.qvec[3].narrow(),
            ];
            let t = [img.tvec[0].narrow(), img.tvec[1].narrow(), img.tvec[2].narrow()];
            assert(q =~= rotation_of(img@));
            assert(t =~= translation_of(img@));
            let p = pose(q, t);
            let camera = Camera {
                width: intr.width,
                height: intr.height,
                fx: intr.fx,
                fy: intr.fy,
                cx: intr.cx,
                cy: intr.cy,
                c2w: matrix_of(&p),
                distortion: intr.distortion,
                image_path: Some(img.name.clone()),
            };
            assert(is_posed(camera, intrinsics@[img.camera_id], p, img@.name));
            assert(camera_of(pose, img@, intrinsics@, camera));
            r.push(camera);
            proof {
                let after = known(views(images@), ids, (i + 1) as nat);
                assert(after == before.push(i as int));
                assert forall|k: int| 0 <= k < r.len() implies camera_of(
                    pose,
                    images[after[k]]@,
                    intrinsics@,
                    #[trigger] r[k],
                ) by {
                    if k < before.len() {
                        assert(after[k] == before[k]);
                    }
                }
            }
        }
    }
    r
}

} // verus!
