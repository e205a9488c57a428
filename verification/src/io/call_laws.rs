//! What calls give, in terms of what they are handed.

use super::cameras::{
    load_transforms_json, opengl_to_opencv_c2w, resolve_path, save_transforms_json,
    transforms_round_trip, Transforms,
};
use super::file_laws::{first_file_is_taken, two_axes_turn_around};
use super::images::srgb_to_linear;
use crate::math::camera::Camera;
use crate::num::reading::no_more;
use crate::num::single::Single;
use vstd::prelude::*;

verus! {

/// Coded light is straight up to its knee, and curved above.
pub proof fn dark_codes_are_straight<S: Fn(Single) -> Single, C: Fn(Single) -> Single>(
    straight: S,
    curved: C,
    x: Single,
    r: Single,
)
    requires
        call_ensures(srgb_to_linear::<S, C>, (straight, curved, x), r),
    ensures
        no_more(x, Single { bits: 0x3D25_AEE6 }) ==> call_ensures(straight, (x,), r),
        !no_more(x, Single { bits: 0x3D25_AEE6 }) ==> call_ensures(curved, (x,), r),
{
}

/// A pose changes its convention: the second and the third axis turn around, and the rest of it
/// stays.
pub proof fn conventions_turn_two_axes(
    m: [[Single; 4]; 4],
    r: [[Single; 4]; 4],
    row: int,
)
    requires
        call_ensures(opengl_to_opencv_c2w, (&m,), r),
        0 <= row < 3,
    ensures
        r[row][0] == m[row][0],
        r[row][1].value() == -m[row][1].value(),
        r[row][2].value() == -m[row][2].value(),
        r[row][3] == m[row][3],
        r[3][0] == m[3][0] && r[3][1] == m[3][1] && r[3][2] == m[3][2] && r[3][3] == m[3][3],
{
    two_axes_turn_around(m, r, row);
}

/// The first file that is there is taken: under the name itself, or with an ending behind it; if
/// none is there, the name stays.
pub proof fn paths_lead_to_files<E: Fn(&str) -> bool>(
    exists_file: E,
    there: spec_fn(Seq<char>) -> bool,
    name: &str,
    r: String,
)
    requires
        forall|s: &str, b: bool| #[trigger]
            call_ensures(exists_file, (s,), b) ==> b == there(s@),
        call_ensures(resolve_path::<E>, (exists_file, name), r),
    ensures
        there(name@) ==> r@ == name@,
        !there(name@) && there(name@ + ".png"@) ==> r@ == name@ + ".png"@,
        !there(name@) && !there(name@ + ".png"@) && there(name@ + ".jpg"@) ==> r@ == name@
            + ".jpg"@,
        !there(name@) && !there(name@ + ".png"@) && !there(name@ + ".jpg"@) && there(
            name@ + ".jpeg"@,
        ) ==> r@ == name@ + ".jpeg"@,
        there(r@) || r@ == name@,
{
    first_file_is_taken(exists_file, there, name@, r@);
}

/// What is saved is loaded: the poses of all cameras, and the size and the lens of the first.
pub proof fn saved_cameras_are_loaded<
    A: Fn(u32, Single) -> Single,
    G: Fn(u32, Single) -> Single,
    F: Fn(u32) -> Single,
    H: Fn(u32) -> Single,
    E: Fn(&str) -> bool + Copy,
>(
    angle: A,
    focal: G,
    float: F,
    half: H,
    exists_file: E,
    cameras: &[Camera<Single>],
    t: Transforms,
    wh: (u32, u32),
    again: Vec<Camera<Single>>,
    i: int,
)
    requires
        call_ensures(save_transforms_json::<A>, (angle, cameras), t),
        call_ensures(
            load_transforms_json::<G, F, H, E>,
            (focal, float, half, exists_file, &t, wh),
            again,
        ),
        0 <= i < cameras@.len(),
    ensures
        again.len() == cameras@.len(),
        again@[i].c2w == cameras@[i].c2w,
        again@[i].width == cameras@[0].width,
        again@[i].height == cameras@[0].height,
        again@[i].fx == cameras@[0].fx,
        again@[i].fy == cameras@[0].fy,
        again@[i].cx == cameras@[0].cx,
        again@[i].cy == cameras@[0].cy,
{
    transforms_round_trip(angle, focal, float, half, exists_file, cameras@, t, wh, again@, i);
}

} // verus!
