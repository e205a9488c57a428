//! What stands where in the files that are read and written.

use super::cameras::{
    candidate, flipped, lens_of, loaded, missed, resolved, says, viewed, Lens, Transforms,
    CANDIDATES,
};
use super::images::{
    fitted, image_size, linearised, resampled_bytes, rgba_bytes, too_large, TargetImage,
};
use super::splat::{colored, component, encodes, is_record, packed, scaled, triple, TOP};
use crate::math::camera::Camera;
use crate::math::quaternion::{normalized, MIN_LENGTH};
use crate::math::{held, in_unit, Gaussian3D};
use crate::num::bytes::{lemma_u32_le_round_trip, u32_le};
use crate::num::reading::less;
use crate::num::single::{lemma_negation_is_an_involution, Single, ONE, ZERO};
use vstd::prelude::*;

verus! {

// ── `.splat` ────────────────────────────────────────────────────────────────────────────

/// Four bytes from `at` on hold the value `v`, the lowest first.
pub open spec fn value_at(b: Seq<u8>, at: int, v: Single) -> bool {
    b[at] + 0x100 * b[at + 1] + 0x1_0000 * b[at + 2] + 0x100_0000 * b[at + 3] == v.bits
}

/// `b` is the byte of what `of` finds in `v`, held in the unit interval.
pub open spec fn byte_of<F: Fn(Single) -> Single, B: Fn(Single) -> u8>(
    of: F,
    byte: B,
    v: Single,
    b: u8,
) -> bool {
    exists|x: Single, y: Single|
        {
            &&& #[trigger] call_ensures(of, (v,), x)
            &&& #[trigger] call_ensures(byte, (y,), b)
            &&& less(x, Single { bits: ZERO }) ==> y == (Single { bits: ZERO })
            &&& less(Single { bits: ONE }, x) ==> y == (Single { bits: ONE })
            &&& !less(x, Single { bits: ZERO }) && !less(Single { bits: ONE }, x) ==> y == x
        }
}

proof fn lemma_byte_of<F: Fn(Single) -> Single, B: Fn(Single) -> u8>(
    of: F,
    byte: B,
    v: Single,
    b: u8,
)
    requires
        encodes(of, byte, v, b),
    ensures
        byte_of(of, byte, v, b),
{
    let x = choose|x: Single| #[trigger]
        call_ensures(of, (v,), x) && call_ensures(byte, (in_unit(x),), b);
    let y = in_unit(x);
    let (zero, one) = (Single { bits: ZERO }, Single { bits: ONE });
    assert(zero.value() <= one.value()) by {
        crate::num::single::lemma_rank_is_order(zero, one);
    }
    assert(call_ensures(of, (v,), x) && call_ensures(byte, (y,), b));
}

/// `b` is the byte of a component `u` of a rotation: what `stretch` makes of it, held between
/// zero and the largest byte.
pub open spec fn turn_byte<R: Fn(Single) -> Single, W: Fn(Single) -> u8>(
    stretch: R,
    whole: W,
    u: Single,
    b: u8,
) -> bool {
    exists|x: Single, y: Single|
        {
            &&& #[trigger] call_ensures(stretch, (u,), x)
            &&& #[trigger] call_ensures(whole, (y,), b)
            &&& less(x, Single { bits: ZERO }) ==> y == (Single { bits: ZERO })
            &&& less(Single { bits: TOP }, x) ==> y == (Single { bits: TOP })
            &&& !less(x, Single { bits: ZERO }) && !less(Single { bits: TOP }, x) ==> y == x
        }
}

proof fn lemma_turn_byte<R: Fn(Single) -> Single, W: Fn(Single) -> u8>(
    stretch: R,
    whole: W,
    u: Single,
    b: u8,
)
    requires
        component(stretch, whole, u, b),
    ensures
        turn_byte(stretch, whole, u, b),
{
    let (zero, top) = (Single { bits: ZERO }, Single { bits: TOP });
    let x = choose|x: Single| #[trigger]
        call_ensures(stretch, (u,), x) && call_ensures(whole, (held(x, zero, top),), b);
    let y = held(x, zero, top);
    assert(zero.value() <= top.value()) by {
        crate::num::single::lemma_rank_is_order(zero, top);
    }
    assert(call_ensures(stretch, (u,), x) && call_ensures(whole, (y,), b));
}

/// A record of a `.splat` file has 32 bytes: the position in twelve, the scales in twelve, a byte
/// for each colour, one for the opacity, and one for each component of the rotation, the real one
/// first.
pub proof fn splat_records_hold_every_field<
    S: Fn(Single) -> Single,
    T: Fn(Single) -> Single,
    O: Fn(Single) -> Single,
    B: Fn(Single) -> u8,
    N: Fn([Single; 4]) -> Single,
    D: Fn(Single, Single) -> Single,
    R: Fn(Single) -> Single,
    W: Fn(Single) -> u8,
>(
    scale: S,
    tone: T,
    coverage: O,
    byte: B,
    norm: N,
    divide: D,
    stretch: R,
    whole: W,
    g: Gaussian3D<Single>,
    b: Seq<u8>,
) -> (r: ([Single; 3], [Single; 4]))
    requires
        is_record(scale, tone, coverage, byte, norm, divide, stretch, whole, g, b),
    ensures
        b.len() == 32,
        value_at(b, 0, g.position[0]),
        value_at(b, 4, g.position[1]),
        value_at(b, 8, g.position[2]),
        value_at(b, 12, r.0[0]),
        value_at(b, 16, r.0[1]),
        value_at(b, 20, r.0[2]),
        call_ensures(scale, (g.log_scale[0],), r.0[0]),
        call_ensures(scale, (g.log_scale[1],), r.0[1]),
        call_ensures(scale, (g.log_scale[2],), r.0[2]),
        byte_of(tone, byte, g.sh_coeffs[0], b[24]),
        byte_of(tone, byte, g.sh_coeffs[16], b[25]),
        byte_of(tone, byte, g.sh_coeffs[32], b[26]),
        byte_of(coverage, byte, g.opacity_logit, b[27]),
        straightened(norm, divide, g.rotation, r.1),
        turn_byte(stretch, whole, r.1[0], b[28]),
        turn_byte(stretch, whole, r.1[1], b[29]),
        turn_byte(stretch, whole, r.1[2], b[30]),
        turn_byte(stretch, whole, r.1[3], b[31]),
{
    let (s, c, q) = choose|s: [Single; 3], c: [u8; 4], q: [u8; 4]|
        {
            &&& #[trigger] scaled(scale, g.log_scale, s)
            &&& #[trigger] colored(tone, coverage, byte, g, c)
            &&& #[trigger] packed(norm, divide, stretch, whole, g.rotation, q)
            &&& b == triple(g.position) + triple(s) + c@ + q@
        };
    lemma_u32_le_round_trip(g.position[0].bits);
    lemma_u32_le_round_trip(g.position[1].bits);
    lemma_u32_le_round_trip(g.position[2].bits);
    lemma_u32_le_round_trip(s[0].bits);
    lemma_u32_le_round_trip(s[1].bits);
    lemma_u32_le_round_trip(s[2].bits);
    lemma_triple(g.position);
    lemma_triple(s);
    let (p, t) = (triple(g.position), triple(s));
    assert(b.len() == 32);
    assert forall|j: int| 0 <= j < 12 implies b[j] == #[trigger] p[j] by {}
    assert forall|j: int| 0 <= j < 12 implies b[12 + j] == #[trigger] t[j] by {}
    lemma_value_at(b, p, 0, g.position);
    lemma_value_at(b, t, 12, s);
    assert(b[24] == c@[0] && b[25] == c@[1] && b[26] == c@[2] && b[27] == c@[3]);
    assert(b[28] == q@[0] && b[29] == q@[1] && b[30] == q@[2] && b[31] == q@[3]);
    lemma_byte_of(tone, byte, g.sh_coeffs[0], c[0]);
    lemma_byte_of(tone, byte, g.sh_coeffs[16], c[1]);
    lemma_byte_of(tone, byte, g.sh_coeffs[32], c[2]);
    lemma_byte_of(coverage, byte, g.opacity_logit, c[3]);
    let u = choose|u: [Single; 4]| #[trigger]
        normalized(norm, divide, g.rotation, u) && forall|i: int|
            0 <= i < 4 ==> component(stretch, whole, u[i], #[trigger] q[i]);
    lemma_turn_byte(stretch, whole, u[0], q[0]);
    lemma_turn_byte(stretch, whole, u[1], q[1]);
    lemma_turn_byte(stretch, whole, u[2], q[2]);
    lemma_turn_byte(stretch, whole, u[3], q[3]);
    lemma_straightened(norm, divide, g.rotation, u);
    (s, u)
}

proof fn lemma_triple(v: [Single; 3])
    ensures
        triple(v).len() == 12,
        forall|j: int| 0 <= j < 4 ==> #[trigger] triple(v)[j] == u32_le(v[0].bits)[j],
        forall|j: int| 4 <= j < 8 ==> #[trigger] triple(v)[j] == u32_le(v[1].bits)[j - 4],
        forall|j: int| 8 <= j < 12 ==> #[trigger] triple(v)[j] == u32_le(v[2].bits)[j - 8],
{
}

proof fn lemma_value_at(b: Seq<u8>, t: Seq<u8>, at: int, v: [Single; 3])
    requires
        t == triple(v),
        forall|j: int| 0 <= j < 12 ==> b[at + j] == #[trigger] t[j],
    ensures
        value_at(b, at, v[0]),
        value_at(b, at + 4, v[1]),
        value_at(b, at + 8, v[2]),
{
    lemma_triple(v);
    assert forall|k: int| 0 <= k < 3 implies #[trigger] value_at(b, at + 4 * k, v[k]) by {
        let x = v[k].bits;
        let w = u32_le(x);
        lemma_u32_le_round_trip(x);
        assert(t[4 * k] == w[0] && t[4 * k + 1] == w[1] && t[4 * k + 2] == w[2] && t[4 * k + 3]
            == w[3]);
        assert(b[at + 4 * k] == w[0]);
        assert(b[at + (4 * k + 1)] == w[1]);
        assert(b[at + (4 * k + 2)] == w[2]);
        assert(b[at + (4 * k + 3)] == w[3]);
    }
    assert(value_at(b, at + 4 * 0, v[0]));
    assert(value_at(b, at + 4 * 1, v[1]));
    assert(value_at(b, at + 4 * 2, v[2]));
}

/// `r` is the rotation `q`, every component divided by its length; where that is tiny, no
/// rotation.
pub open spec fn straightened<N: Fn([Single; 4]) -> Single, D: Fn(Single, Single) -> Single>(
    norm: N,
    divide: D,
    q: [Single; 4],
    r: [Single; 4],
) -> bool {
    exists|n: Single|
        {
            &&& #[trigger] call_ensures(norm, (q,), n)
            &&& less(n, Single { bits: MIN_LENGTH }) ==> r[0] == (Single { bits: ONE }) && r[1] == (
            Single { bits: ZERO }) && r[2] == (Single { bits: ZERO }) && r[3] == (Single {
                bits: ZERO,
            })
            &&& !less(n, Single { bits: MIN_LENGTH }) ==> call_ensures(divide, (q[0], n), r[0])
                && call_ensures(divide, (q[1], n), r[1]) && call_ensures(divide, (q[2], n), r[2])
                && call_ensures(divide, (q[3], n), r[3])
        }
}

proof fn lemma_straightened<N: Fn([Single; 4]) -> Single, D: Fn(Single, Single) -> Single>(
    norm: N,
    divide: D,
    q: [Single; 4],
    r: [Single; 4],
)
    requires
        normalized(norm, divide, q, r),
    ensures
        straightened(norm, divide, q, r),
{
    let n = choose|n: Single| #[trigger]
        call_ensures(norm, (q,), n) && forall|i: int|
            0 <= i < 4 ==> if n.below(Single { bits: MIN_LENGTH }) {
                #[trigger] r[i] == (Single {
                    bits: if i == 0 {
                        ONE
                    } else {
                        ZERO
                    },
                })
            } else {
                call_ensures(divide, (q[i], n), r[i])
            };
    assert(r[0] == r[0] && r[1] == r[1] && r[2] == r[2] && r[3] == r[3]);
    assert(call_ensures(norm, (q,), n));
}

// ── `transforms.json` ───────────────────────────────────────────────────────────────────

/// Between the two conventions the second and third axis point the other way; the first axis,
/// the centre and the last row are the same.
pub proof fn two_axes_turn_around(a: [[Single; 4]; 4], b: [[Single; 4]; 4], row: int)
    requires
        flipped(a, b),
        0 <= row < 3,
    ensures
        b[row][0] == a[row][0],
        b[row][1].value() == -a[row][1].value(),
        b[row][1].nan() == a[row][1].nan(),
        b[row][2].value() == -a[row][2].value(),
        b[row][2].nan() == a[row][2].nan(),
        b[row][3] == a[row][3],
        b[3][0] == a[3][0],
        b[3][1] == a[3][1],
        b[3][2] == a[3][2],
        b[3][3] == a[3][3],
{
    lemma_negation_is_an_involution(a[row][1]);
    lemma_negation_is_an_involution(a[row][2]);
}

/// Every frame of a file becomes a camera with its pose.  The size and the lens are those of the
/// file; where it does not say, the size is the given one, the focal length comes from the angle
/// or else is the width, the second focal length is the first, and the centre is the middle.
pub proof fn frames_become_cameras<
    G: Fn(u32, Single) -> Single,
    F: Fn(u32) -> Single,
    H: Fn(u32) -> Single,
    E: Fn(&str) -> bool,
>(
    focal: G,
    float: F,
    half: H,
    exists_file: E,
    t: Transforms,
    wh: (u32, u32),
    cameras: Seq<Camera<Single>>,
    i: int,
)
    requires
        loaded(focal, float, half, exists_file, t, wh, cameras),
        0 <= i < t.frames.len(),
    ensures
        cameras.len() == t.frames.len(),
        ({
            let c = cameras[i];
            &&& t.w is Some ==> c.width == t.w->0
            &&& t.w is None ==> c.width == wh.0
            &&& t.h is Some ==> c.height == t.h->0
            &&& t.h is None ==> c.height == wh.1
            &&& t.fl_x is Some ==> c.fx == t.fl_x->0
            &&& t.fl_x is None && t.camera_angle_x is Some ==> call_ensures(
                focal,
                (c.width, t.camera_angle_x->0),
                c.fx,
            )
            &&& t.fl_x is None && t.camera_angle_x is None ==> call_ensures(
                float,
                (c.width,),
                c.fx,
            )
            &&& t.fl_y is Some ==> c.fy == t.fl_y->0
            &&& t.fl_y is None ==> c.fy == c.fx
            &&& t.cx is Some ==> c.cx == t.cx->0
            &&& t.cx is None ==> call_ensures(half, (c.width,), c.cx)
            &&& t.cy is Some ==> c.cy == t.cy->0
            &&& t.cy is None ==> call_ensures(half, (c.height,), c.cy)
            &&& flipped(t.frames[i].transform_matrix, c.c2w)
            &&& forall|j: int| 0 <= j < 3 ==> #[trigger] c.distortion[j] == (Single { bits: ZERO })
        }),
{
    let l = choose|l: Lens| #[trigger]
        lens_of(focal, float, half, t, wh, l) && forall|i: int|
            0 <= i < cameras.len() ==> viewed(exists_file, t.frames[i], l, #[trigger] cameras[i]);
    assert(viewed(exists_file, t.frames[i], l, cameras[i]));
    let c = cameras[i];
    let zero = Single { bits: ZERO };
    assert(c.distortion@ == seq![zero, zero, zero]);
    assert forall|j: int| 0 <= j < 3 implies #[trigger] c.distortion[j] == zero by {
        assert(c.distortion@[j] == c.distortion[j]);
    }
}

/// An image is looked for under its name, and then with the endings `.png`, `.jpg`, `.jpeg`,
/// `.PNG` and `.JPG`; the first file that is there is taken, and the name itself where none is.
pub proof fn first_file_is_taken<E: Fn(&str) -> bool>(
    exists_file: E,
    there: spec_fn(Seq<char>) -> bool,
    name: Seq<char>,
    r: Seq<char>,
)
    requires
        forall|s: &str, b: bool| #[trigger]
            call_ensures(exists_file, (s,), b) ==> b == there(s@),
        resolved(exists_file, name, r),
    ensures
        r == if there(name) {
            name
        } else if there(name + ".png"@) {
            name + ".png"@
        } else if there(name + ".jpg"@) {
            name + ".jpg"@
        } else if there(name + ".jpeg"@) {
            name + ".jpeg"@
        } else if there(name + ".PNG"@) {
            name + ".PNG"@
        } else if there(name + ".JPG"@) {
            name + ".JPG"@
        } else {
            name
        },
{
    if missed(exists_file, name, CANDIDATES as int) && r == name {
        assert forall|j: int| 0 <= j < 6 implies !there(#[trigger] candidate(name, j)) by {
            assert(says(exists_file, candidate(name, j), false));
        }
        assert(!there(candidate(name, 0)) && !there(candidate(name, 1)) && !there(
            candidate(name, 2),
        ) && !there(candidate(name, 3)) && !there(candidate(name, 4)) && !there(candidate(name, 5)));
    } else {
        let k = choose|k: int|
            0 <= k < CANDIDATES && r == #[trigger] candidate(name, k) && missed(
                exists_file,
                name,
                k,
            ) && says(exists_file, r, true);
        assert(there(r));
        assert forall|j: int| 0 <= j < k implies !there(#[trigger] candidate(name, j)) by {
            assert(says(exists_file, candidate(name, j), false));
        }
        assert(k > 0 ==> !there(candidate(name, 0)));
        assert(k > 1 ==> !there(candidate(name, 1)));
        assert(k > 2 ==> !there(candidate(name, 2)));
        assert(k > 3 ==> !there(candidate(name, 3)));
        assert(k > 4 ==> !there(candidate(name, 4)));
        assert(k == 0 || k == 1 || k == 2 || k == 3 || k == 4 || k == 5);
    }
}

// ── images ──────────────────────────────────────────────────────────────────────────────

/// Every pixel of a target has three colours, decoded as such, and its coverage, decoded by
/// itself; all come from the four bytes of that pixel.
pub proof fn targets_decode_every_byte<L: Fn(u8) -> Single, C: Fn(u8) -> Single>(
    linear: L,
    coverage: C,
    rgba: Seq<u8>,
    t: TargetImage,
    p: int,
)
    requires
        linearised(linear, coverage, rgba, t),
        0 <= p < t.width * t.height,
    ensures
        t.data.len() == 4 * (t.width * t.height),
        call_ensures(linear, (rgba[4 * p],), t.data[4 * p]),
        call_ensures(linear, (rgba[4 * p + 1],), t.data[4 * p + 1]),
        call_ensures(linear, (rgba[4 * p + 2],), t.data[4 * p + 2]),
        call_ensures(coverage, (rgba[4 * p + 3],), t.data[4 * p + 3]),
{
    assert(t.wf());
    assert((4 * p) % 4 == 0 && (4 * p + 1) % 4 == 1 && (4 * p + 2) % 4 == 2 && (4 * p + 3) % 4 == 3);
    assert(t.data[4 * p] == t.data[4 * p]);
    assert(t.data[4 * p + 1] == t.data[4 * p + 1]);
    assert(t.data[4 * p + 2] == t.data[4 * p + 2]);
    assert(t.data[4 * p + 3] == t.data[4 * p + 3]);
}

/// An image that has the size of its camera is decoded as it is, and any other after it was
/// resampled to that size.
pub proof fn targets_fit_their_camera(img: image::DynamicImage, w: u32, h: u32)
    ensures
        image_size(img).0 == w && image_size(img).1 == h ==> fitted(img, w, h) == rgba_bytes(img),
        image_size(img).0 != w || image_size(img).1 != h ==> fitted(img, w, h) == resampled_bytes(
            img,
            w,
            h,
        ),
{
}

/// An image is refused only if it has to be resampled and cannot be: because a side is too long
/// and stays long, or because the result, or the image between the two passes, takes more memory
/// than there can be.
pub proof fn images_are_refused_for_their_size(img: image::DynamicImage, w: u32, h: u32)
    ensures
        ({
            let (iw, ih) = image_size(img);
            let long = (iw > 0x40_0000 && w > 0x80_0000) || (ih > 0x40_0000 && h > 0x80_0000);
            let empty = iw == 0 || ih == 0 || w == 0 || h == 0;
            too_large(img, w, h) <==> (iw != w || ih != h) && (long && !empty || 16 * (iw * h)
                > isize::MAX || 16 * (w * h) > isize::MAX)
        }),
{
    let (iw, ih) = image_size(img);
    assert(iw * h * 16 == 16 * (iw * h));
    assert(w * h * 16 == 16 * (w * h));
}

} // verus!
