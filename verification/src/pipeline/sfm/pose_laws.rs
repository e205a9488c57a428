//! What the images of a reconstruction are posed as.

use super::cameras::{describes, is_intrinsics, CameraRecord};
use super::images::ImageView;
use super::poses::{
    camera_of, is_matrix_of, is_posed, known, pose_entry, rotation_of, translation_of, Pose,
};
use crate::math::camera::Camera;
use crate::num::single::{Single, ONE, ZERO};
use vstd::prelude::*;

verus! {

/// A camera has the intrinsics of the camera of its image, the name of the image, and the pose
/// that the kernel finds in the rotation and the translation of the image: the matrix holds the
/// rotation, and the centre in its last column.
pub proof fn cameras_are_posed_by_their_images<F: Fn([Single; 4], [Single; 3]) -> Pose>(
    pose: F,
    i: ImageView,
    intrinsics: Map<u32, Camera<Single>>,
    c: Camera<Single>,
)
    requires
        camera_of(pose, i, intrinsics, c),
    ensures
        c.width == intrinsics[i.camera_id].width,
        c.height == intrinsics[i.camera_id].height,
        c.fx == intrinsics[i.camera_id].fx,
        c.fy == intrinsics[i.camera_id].fy,
        c.cx == intrinsics[i.camera_id].cx,
        c.cy == intrinsics[i.camera_id].cy,
        c.distortion == intrinsics[i.camera_id].distortion,
        c.image_path matches Some(s) && s@ == i.name,
        exists|q: [Single; 4], t: [Single; 3], p: Pose|
            {
                &&& #[trigger] call_ensures(pose, (q, t), p)
                &&& q[0] == i.qvec[0].narrowed()
                &&& q[1] == i.qvec[1].narrowed()
                &&& q[2] == i.qvec[2].narrowed()
                &&& q[3] == i.qvec[3].narrowed()
                &&& t[0] == i.tvec[0].narrowed()
                &&& t[1] == i.tvec[1].narrowed()
                &&& t[2] == i.tvec[2].narrowed()
                &&& forall|row: int, col: int|
                    0 <= row < 3 && 0 <= col < 3 ==> #[trigger] c.c2w[row][col]
                        == p.rotation[row][col]
                &&& c.c2w[0][3] == p.center[0]
                &&& c.c2w[1][3] == p.center[1]
                &&& c.c2w[2][3] == p.center[2]
                &&& c.c2w[3][0] == (Single { bits: ZERO })
                &&& c.c2w[3][1] == (Single { bits: ZERO })
                &&& c.c2w[3][2] == (Single { bits: ZERO })
                &&& c.c2w[3][3] == (Single { bits: ONE })
            },
{
    let q = rotation_of(i);
    let t = translation_of(i);
    let p = choose|p: Pose| #[trigger]
        call_ensures(pose, (rotation_of(i), translation_of(i)), p) && is_posed(
            c,
            intrinsics[i.camera_id],
            p,
            i.name,
        );
    assert(call_ensures(pose, (q, t), p));
    assert(is_matrix_of(p, c.c2w));
    assert(c.c2w[0][3] == pose_entry(p, 0, 3));
    assert(c.c2w[1][3] == pose_entry(p, 1, 3));
    assert(c.c2w[2][3] == pose_entry(p, 2, 3));
    assert(c.c2w[3][0] == pose_entry(p, 3, 0));
    assert(c.c2w[3][1] == pose_entry(p, 3, 1));
    assert(c.c2w[3][2] == pose_entry(p, 3, 2));
    assert(c.c2w[3][3] == pose_entry(p, 3, 3));
}

/// All images whose camera is known are taken, and no others, in their order.
pub proof fn images_of_known_cameras_are_taken(images: Seq<ImageView>, ids: Set<u32>, n: nat)
    requires
        n <= images.len(),
    ensures
        forall|a: int|
            0 <= a < known(images, ids, n).len() ==> 0 <= #[trigger] known(images, ids, n)[a] < n
                && ids.contains(images[known(images, ids, n)[a]].camera_id),
        forall|a: int, b: int|
            0 <= a < b < known(images, ids, n).len() ==> known(images, ids, n)[a] < known(
                images,
                ids,
                n,
            )[b],
        forall|i: int|
            0 <= i < n && ids.contains((#[trigger] images[i]).camera_id) ==> known(
                images,
                ids,
                n,
            ).contains(i),
    decreases n,
{
    let k = known(images, ids, n);
    if n > 0 {
        let m = (n - 1) as nat;
        let fewer = known(images, ids, m);
        images_of_known_cameras_are_taken(images, ids, m);
        assert forall|i: int| 0 <= i < n && ids.contains((#[trigger] images[i]).camera_id) implies k.contains(
            i,
        ) by {
            if i < m {
                assert(fewer.contains(i));
                let a = choose|a: int| 0 <= a < fewer.len() && fewer[a] == i;
                assert(k[a] == i);
            } else {
                assert(k[fewer.len() as int] == i);
            }
        }
    }
}

/// Every camera has the size, focal lengths and centre of its record, stands at the origin without
/// being turned, and does not distort; there is one for each record.
pub proof fn cameras_have_their_records(
    records: Map<u32, CameraRecord>,
    cameras: Map<u32, Camera<Single>>,
    id: u32,
)
    requires
        describes(records, cameras),
    ensures
        cameras.dom().contains(id) <==> records.dom().contains(id),
        cameras.dom().contains(id) ==> {
            let (c, r) = (cameras[id], records[id]);
            &&& c.width == r.width
            &&& c.height == r.height
            &&& c.fx == r.fx
            &&& c.fy == r.fy
            &&& c.cx == r.cx
            &&& c.cy == r.cy
            &&& forall|i: int| 0 <= i < 4 ==> (#[trigger] c.c2w[i][i]).bits == 0x3F80_0000
            &&& forall|i: int, j: int|
                0 <= i < 4 && 0 <= j < 4 && i != j ==> (#[trigger] c.c2w[i][j]).bits == 0
            &&& c.distortion[0].bits == 0
            &&& c.distortion[1].bits == 0
            &&& c.distortion[2].bits == 0
            &&& c.image_path is None
        },
{
    if cameras.dom().contains(id) {
        let c = cameras[id];
        assert(is_intrinsics(c, records[id]));
        assert(c.distortion@[0].bits == 0 && c.distortion@[1].bits == 0 && c.distortion@[2].bits
            == 0);
    }
}

} // verus!
