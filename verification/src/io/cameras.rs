//! Cameras in `transforms.json`.
//!
//! Poses are stored in the OpenGL convention (y up, looking along -z) and held in the OpenCV
//! convention (y down, looking along +z).  The kernels: `focal` of an image width and a
//! horizontal angle, the `angle` of a width and a focal length, a size as a number (`float`)
//! and half of it (`half`); `exists_file` tells whether there is a file of a name.

use crate::math::camera::Camera;
use crate::num::single::{lemma_negation_is_an_involution, Single, ZERO};
use crate::num::text::{append_padded_decimal, padded_decimal};
use vstd::prelude::*;

verus! {

/// One view.
#[derive(Clone, Debug)]
pub struct Frame {
    pub file_path: String,
    pub transform_matrix: [[Single; 4]; 4],
}

/// The contents of a `transforms.json`.
#[derive(Clone, Debug)]
pub struct Transforms {
    pub camera_angle_x: Option<Single>,
    pub fl_x: Option<Single>,
    pub fl_y: Option<Single>,
    pub cx: Option<Single>,
    pub cy: Option<Single>,
    pub w: Option<u32>,
    pub h: Option<u32>,
    pub frames: Vec<Frame>,
}

// ── conventions ─────────────────────────────────────────────────────────────────────────

/// `b` is `a` in the other convention: the second and third column of the first three rows
/// change their sign.
pub open spec fn flipped(a: [[Single; 4]; 4], b: [[Single; 4]; 4]) -> bool {
    forall|row: int, col: int|
        0 <= row < 4 && 0 <= col < 4 ==> #[trigger] b[row][col] == if row < 3 && (col == 1 || col
            == 2) {
            a[row][col].negated()
        } else {
            a[row][col]
        }
}

/// Changes the convention of a pose.
pub fn opengl_to_opencv_c2w(m: &[[Single; 4]; 4]) -> (r: [[Single; 4]; 4])
    ensures
        flipped(*m, r),
{
    let r0 = [m[0][0], m[0][1].neg(), m[0][2].neg(), m[0][3]];
    let r1 = [m[1][0], m[1][1].neg(), m[1][2].neg(), m[1][3]];
    let r2 = [m[2][0], m[2][1].neg(), m[2][2].neg(), m[2][3]];
    let r = [r0, r1, r2, m[3]];
    assert forall|row: int, col: int| 0 <= row < 4 && 0 <= col < 4 implies #[trigger] r[row][col]
        == if row < 3 && (col == 1 || col == 2) {
        m[row][col].negated()
    } else {
        m[row][col]
    } by {
        assert(r[0] == r0 && r[1] == r1 && r[2] == r2 && r[3] == m[3]);
        assert(row == 0 || row == 1 || row == 2 || row == 3);
        assert(col == 0 || col == 1 || col == 2 || col == 3);
    }
    r
}

/// Changing the convention twice gives the pose back, bit for bit.
pub proof fn flipping_twice_is_nothing(
    a: [[Single; 4]; 4],
    b: [[Single; 4]; 4],
    c: [[Single; 4]; 4],
)
    requires
        flipped(a, b),
        flipped(b, c),
    ensures
        c == a,
{
    assert forall|row: int| 0 <= row < 4 implies c[row] == a[row] by {
        assert forall|col: int| 0 <= col < 4 implies c[row][col] == a[row][col] by {
            lemma_negation_is_an_involution(a[row][col]);
            assert(b[row][col] == b[row][col]);
        }
        assert(c[row] =~= a[row]);
    }
    assert(c =~= a);
}

// ── files ───────────────────────────────────────────────────────────────────────────────

/// How many names are tried for a file.
pub const CANDIDATES: usize = 6;

/// The names that are tried for a file: its own, then with each extension.
pub open spec fn candidate(name: Seq<char>, k: int) -> Seq<char> {
    if k == 0 {
        name
    } else if k == 1 {
        name + ".png"@
    } else if k == 2 {
        name + ".jpg"@
    } else if k == 3 {
        name + ".jpeg"@
    } else if k == 4 {
        name + ".PNG"@
    } else {
        name + ".JPG"@
    }
}

/// `exists_file` says `b` of the file `name`.
pub open spec fn says<E: Fn(&str) -> bool>(exists_file: E, name: Seq<char>, b: bool) -> bool {
    exists|s: &str| s@ == name && #[trigger] call_ensures(exists_file, (s,), b)
}

/// The first `k` candidates were looked for in vain.
pub open spec fn missed<E: Fn(&str) -> bool>(exists_file: E, name: Seq<char>, k: int) -> bool {
    forall|j: int| 0 <= j < k ==> says(exists_file, #[trigger] candidate(name, j), false)
}

/// `r` is the first candidate that exists; where none does, the name itself.
pub open spec fn resolved<E: Fn(&str) -> bool>(
    exists_file: E,
    name: Seq<char>,
    r: Seq<char>,
) -> bool {
    ||| missed(exists_file, name, CANDIDATES as int) && r == name
    ||| exists|k: int|
        0 <= k < CANDIDATES && r == #[trigger] candidate(name, k) && missed(exists_file, name, k)
            && says(exists_file, r, true)
}

fn nth_candidate(name: &str, k: usize) -> (r: String)
    requires
        k < CANDIDATES,
    ensures
        r@ == candidate(name@, k as int),
{
    let mut r = String::new();
    r.append(name);
    assert(r@ =~= name@);
    if k == 1 {
        r.append(".png");
    } else if k == 2 {
        r.append(".jpg");
    } else if k == 3 {
        r.append(".jpeg");
    } else if k == 4 {
        r.append(".PNG");
    } else if k == 5 {
        r.append(".JPG");
    }
    r
}

/// The file of a view: an extension may be missing in its name.
pub fn resolve_path<E: Fn(&str) -> bool>(exists_file: E, file_path: &str) -> (r: String)
    requires
        forall|s: &str| call_requires(exists_file, (s,)),
    ensures
        resolved(exists_file, file_path@, r@),
{
    for k in 0..CANDIDATES
        invariant
            forall|s: &str| call_requires(exists_file, (s,)),
            missed(exists_file, file_path@, k as int),
    {
        let name = nth_candidate(file_path, k);
        let found = exists_file(name.as_str());
        assert(says(exists_file, candidate(file_path@, k as int), found));
        if found {
            return name;
        }
    }
    file_path.to_owned()
}

// ── loading ─────────────────────────────────────────────────────────────────────────────

/// What all views share.
#[derive(Clone, Copy, Debug)]
pub struct Lens {
    pub width: u32,
    pub height: u32,
    pub fx: Single,
    pub fy: Single,
    pub cx: Single,
    pub cy: Single,
}

pub open spec fn or_else(v: Option<u32>, d: u32) -> u32 {
    match v {
        Some(x) => x,
        None => d,
    }
}

/// `v` is the given value, or can be what `f` makes of `size`.
pub open spec fn given_or<F: Fn(u32) -> Single>(
    given: Option<Single>,
    f: F,
    size: u32,
    v: Single,
) -> bool {
    match given {
        Some(x) => v == x,
        None => call_ensures(f, (size,), v),
    }
}

/// `l` can be the lens that `t` describes: sizes default to `wh`; the focal length is given,
/// or follows from the angle, or is the width; the vertical one is the horizontal one where
/// it is not given; the principal point defaults to the centre.
pub open spec fn lens_of<
    G: Fn(u32, Single) -> Single,
    F: Fn(u32) -> Single,
    H: Fn(u32) -> Single,
>(focal: G, float: F, half: H, t: Transforms, wh: (u32, u32), l: Lens) -> bool {
    &&& l.width == or_else(t.w, wh.0)
    &&& l.height == or_else(t.h, wh.1)
    &&& match (t.fl_x, t.camera_angle_x) {
        (Some(f), _) => l.fx == f,
        (None, Some(a)) => call_ensures(focal, (l.width, a), l.fx),
        (None, None) => call_ensures(float, (l.width,), l.fx),
    }
    &&& l.fy == match t.fl_y {
        Some(f) => f,
        None => l.fx,
    }
    &&& given_or(t.cx, half, l.width, l.cx)
    &&& given_or(t.cy, half, l.height, l.cy)
}

/// `c` can be the camera of the view `f`.
pub open spec fn viewed<E: Fn(&str) -> bool>(
    exists_file: E,
    f: Frame,
    l: Lens,
    c: Camera<Single>,
) -> bool {
    let zero = Single { bits: ZERO };
    &&& c.width == l.width
    &&& c.height == l.height
    &&& c.fx == l.fx
    &&& c.fy == l.fy
    &&& c.cx == l.cx
    &&& c.cy == l.cy
    &&& flipped(f.transform_matrix, c.c2w)
    &&& c.distortion@ == seq![zero, zero, zero]
    &&& c.image_path matches Some(p) && resolved(exists_file, f.file_path@, p@)
}

/// `cameras` can be the cameras of the views of `t`, in order.
pub open spec fn loaded<
    G: Fn(u32, Single) -> Single,
    F: Fn(u32) -> Single,
    H: Fn(u32) -> Single,
    E: Fn(&str) -> bool,
>(
    focal: G,
    float: F,
    half: H,
    exists_file: E,
    t: Transforms,
    wh: (u32, u32),
    cameras: Seq<Camera<Single>>,
) -> bool {
    &&& cameras.len() == t.frames.len()
    &&& exists|l: Lens| #[trigger]
        lens_of(focal, float, half, t, wh, l) && forall|i: int|
            0 <= i < cameras.len() ==> viewed(exists_file, t.frames[i], l, #[trigger] cameras[i])
}

/// The cameras of a `transforms.json`.
pub fn load_transforms_json<
    G: Fn(u32, Single) -> Single,
    F: Fn(u32) -> Single,
    H: Fn(u32) -> Single,
    E: Fn(&str) -> bool + Copy,
>(focal: G, float: F, half: H, exists_file: E, t: &Transforms, default_wh: (u32, u32)) -> (r: Vec<
    Camera<Single>,
>)
    requires
        forall|w: u32, a: Single| call_requires(focal, (w, a)),
        forall|w: u32| call_requires(float, (w,)),
        forall|w: u32| call_requires(half, (w,)),
        forall|s: &str| call_requires(exists_file, (s,)),
    ensures
        loaded(focal, float, half, exists_file, *t, default_wh, r@),
{
    let width = match t.w {
        Some(w) => w,
        None => default_wh.0,
    };
    let height = match t.h {
        Some(h) => h,
        None => default_wh.1,
    };
    let fx = match t.fl_x {
        Some(f) => f,
        None => match t.camera_angle_x {
            Some(a) => focal(width, a),
            None => float(width),
        },
    };
    let fy = match t.fl_y {
        Some(f) => f,
        None => fx,
    };
    let cx = match t.cx {
        Some(c) => c,
        None => half(width),
    };
    let cy = match t.cy {
        Some(c) => c,
        None => half(height),
    };
    let lens = Lens { width, height, fx, fy, cx, cy };
    assert(lens_of(focal, float, half, *t, default_wh, lens));
    let mut cameras: Vec<Camera<Single>> = Vec::new();
    for i in 0..t.frames.len()
        invariant
            forall|s: &str| call_requires(exists_file, (s,)),
            cameras.len() == i,
            forall|j: int|
                0 <= j < i ==> viewed(exists_file, t.frames[j], lens, #[trigger] cameras[j]),
    {
        let f = &t.frames[i];
        let zero = Single { bits: ZERO };
        let camera = Camera {
            width: lens.width,
            height: lens.height,
            fx: lens.fx,
            fy: lens.fy,
            cx: lens.cx,
            cy: lens.cy,
            c2w: opengl_to_opencv_c2w(&f.transform_matrix),
            distortion: [zero, zero, zero],
            image_path: Some(resolve_path(exists_file, f.file_path.as_str())),
        };
        assert(camera.distortion@ =~= seq![zero, zero, zero]);
        cameras.push(camera);
    }
    cameras
}

// ── saving ──────────────────────────────────────────────────────────────────────────────

/// The name of view `i`: that of its image, or one made of its number.
pub open spec fn frame_name(c: Camera<Single>, i: int) -> Seq<char> {
    match c.image_path {
        Some(p) => p@,
        None => "frame_"@ + padded_decimal(i as nat, 6),
    }
}

/// `t` can be what is saved of the cameras: their poses, and the intrinsics of the first.
pub open spec fn saved<A: Fn(u32, Single) -> Single>(
    angle: A,
    cameras: Seq<Camera<Single>>,
    t: Transforms,
) -> bool {
    &&& t.frames.len() == cameras.len()
    &&& forall|i: int|
        0 <= i < cameras.len() ==> {
            &&& (#[trigger] t.frames[i]).file_path@ == frame_name(cameras[i], i)
            &&& flipped(cameras[i].c2w, t.frames[i].transform_matrix)
        }
    &&& if cameras.len() == 0 {
        &&& t.camera_angle_x is None
        &&& t.fl_x is None
        &&& t.fl_y is None
        &&& t.cx is None
        &&& t.cy is None
        &&& t.w is None
        &&& t.h is None
    } else {
        let c = cameras[0];
        &&& t.camera_angle_x matches Some(a) && call_ensures(angle, (c.width, c.fx), a)
        &&& t.fl_x == Some(c.fx)
        &&& t.fl_y == Some(c.fy)
        &&& t.cx == Some(c.cx)
        &&& t.cy == Some(c.cy)
        &&& t.w == Some(c.width)
        &&& t.h == Some(c.height)
    }
}

/// What is saved of the cameras.
pub fn save_transforms_json<A: Fn(u32, Single) -> Single>(angle: A, cameras: &[Camera<Single>]) -> (t:
    Transforms)
    requires
        forall|w: u32, f: Single| call_requires(angle, (w, f)),
    ensures
        saved(angle, cameras@, t),
{
    let mut frames: Vec<Frame> = Vec::new();
    for i in 0..cameras.len()
        invariant
            frames.len() == i,
            forall|j: int|
                0 <= j < i ==> {
                    &&& (#[trigger] frames[j]).file_path@ == frame_name(cameras[j], j)
                    &&& flipped(cameras[j].c2w, frames[j].transform_matrix)
                },
    {
        let c = &cameras[i];
        let file_path = match &c.image_path {
            Some(p) => p.clone(),
            None => {
                let mut name = String::new();
                name.append("frame_");
                append_padded_decimal(&mut name, i, 6);
                assert(name@ =~= "frame_"@ + padded_decimal(i as nat, 6));
                name
            },
        };
        assert(file_path@ == frame_name(*c, i as int));
        frames.push(Frame { file_path, transform_matrix: opengl_to_opencv_c2w(&c.c2w) });
    }
    if cameras.len() == 0 {
        Transforms {
            camera_angle_x: None,
            fl_x: None,
            fl_y: None,
            cx: None,
            cy: None,
            w: None,
            h: None,
            frames,
        }
    } else {
        let c = &cameras[0];
        let a = angle(c.width, c.fx);
        Transforms {
            camera_angle_x: Some(a),
            fl_x: Some(c.fx),
            fl_y: Some(c.fy),
            cx: Some(c.cx),
            cy: Some(c.cy),
            w: Some(c.width),
            h: Some(c.height),
            frames,
        }
    }
}

/// Cameras that are saved and loaded have their poses back, and the intrinsics of the first;
/// their images are looked for under the names that were saved.
pub proof fn transforms_round_trip<
    A: Fn(u32, Single) -> Single,
    G: Fn(u32, Single) -> Single,
    F: Fn(u32) -> Single,
    H: Fn(u32) -> Single,
    E: Fn(&str) -> bool,
>(
    angle: A,
    focal: G,
    float: F,
    half: H,
    exists_file: E,
    cameras: Seq<Camera<Single>>,
    t: Transforms,
    wh: (u32, u32),
    again: Seq<Camera<Single>>,
    i: int,
)
    requires
        saved(angle, cameras, t),
        loaded(focal, float, half, exists_file, t, wh, again),
        0 <= i < cameras.len(),
    ensures
        again.len() == cameras.len(),
        again[i].c2w == cameras[i].c2w,
        again[i].width == cameras[0].width,
        again[i].height == cameras[0].height,
        again[i].fx == cameras[0].fx,
        again[i].fy == cameras[0].fy,
        again[i].cx == cameras[0].cx,
        again[i].cy == cameras[0].cy,
        again[i].image_path matches Some(p) && resolved(
            exists_file,
            frame_name(cameras[i], i),
            p@,
        ),
{
    let l = choose|l: Lens| #[trigger]
        lens_of(focal, float, half, t, wh, l) && forall|i: int|
            0 <= i < again.len() ==> viewed(exists_file, t.frames[i], l, #[trigger] again[i]);
    assert(viewed(exists_file, t.frames[i], l, again[i]));
    flipping_twice_is_nothing(cameras[i].c2w, t.frames[i].transform_matrix, again[i].c2w);
}

} // verus!
