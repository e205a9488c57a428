//! What the camera may see: the pixels that a projected Gaussian may touch, and the frustum.

use crate::num::single::Single;
use vstd::prelude::*;

verus! {

/// `w` in 32 bits with a sign: what exceeds them comes out negative.
pub open spec fn wrapped(w: u32) -> int {
    if w <= i32::MAX {
        w as int
    } else {
        w - 0x1_0000_0000
    }
}

pub open spec fn larger(a: int, b: int) -> int {
    if a >= b {
        a
    } else {
        b
    }
}

pub open spec fn smaller(a: int, b: int) -> int {
    if a <= b {
        a
    } else {
        b
    }
}

/// The pixels from `lo` up to and including `hi` that lie on a `width` by `height` screen,
/// as `(x0, y0, x1, y1)` with `x1` and `y1` exclusive; nothing, where none does.
pub open spec fn clipped_box(lo: (i32, i32), hi: (i32, i32), width: u32, height: u32) -> Option<
    (int, int, int, int),
> {
    let x0 = larger(lo.0 as int, 0);
    let y0 = larger(lo.1 as int, 0);
    let x1 = smaller(hi.0 + 1, wrapped(width));
    let y1 = smaller(hi.1 + 1, wrapped(height));
    if x0 >= x1 || y0 >= y1 {
        None
    } else {
        Some((x0, y0, x1, y1))
    }
}

/// The box of pixels around a projected Gaussian, clipped to the screen.  `lo` and `hi` are
/// its mean less and plus its radius, rounded towards zero.
pub fn gaussian_aabb_2d(lo: (i32, i32), hi: (i32, i32), width: u32, height: u32) -> (r: Option<
    (i32, i32, i32, i32),
>)
    requires
        hi.0 < i32::MAX,
        hi.1 < i32::MAX,
    ensures
        match (r, clipped_box(lo, hi, width, height)) {
            (Some(a), Some(b)) => a.0 == b.0 && a.1 == b.1 && a.2 == b.2 && a.3 == b.3,
            (None, None) => true,
            _ => false,
        },
{
    if width > i32::MAX as u32 || height > i32::MAX as u32 {
        return None;
    }
    let (w, h) = (width as i32, height as i32);
    let x0: i32 = if lo.0 >= 0 {
        lo.0
    } else {
        0
    };
    let y0: i32 = if lo.1 >= 0 {
        lo.1
    } else {
        0
    };
    let x1 = if hi.0 + 1 <= w {
        hi.0 + 1
    } else {
        w
    };
    let y1 = if hi.1 + 1 <= h {
        hi.1 + 1
    } else {
        h
    };
    if x0 >= x1 || y0 >= y1 {
        None
    } else {
        Some((x0, y0, x1, y1))
    }
}

/// A pixel is in the clipped box exactly if it is on the screen and within the extent.
pub proof fn box_is_the_extent_on_screen(
    lo: (i32, i32),
    hi: (i32, i32),
    width: u32,
    height: u32,
    px: int,
    py: int,
)
    requires
        width <= i32::MAX,
        height <= i32::MAX,
    ensures
        ({
            let inside = match clipped_box(lo, hi, width, height) {
                Some(b) => b.0 <= px < b.2 && b.1 <= py < b.3,
                None => false,
            };
            inside <==> 0 <= px < width && 0 <= py < height && lo.0 <= px <= hi.0 && lo.1 <= py
                <= hi.1
        }),
{
}

/// A plane: its normal, and its distance from the origin along it.
pub type Plane = ([Single; 3], Single);

/// The signed distance of `center` to the plane `p` can be such that a sphere around it is
/// (`beyond`) or is not beyond the plane.
pub open spec fn stands<D: Fn(Plane, [Single; 3]) -> Single>(
    distance: D,
    p: Plane,
    center: [Single; 3],
    radius: Single,
    beyond: bool,
) -> bool {
    exists|d: Single| #[trigger]
        call_ensures(distance, (p, center), d) && d.below(radius.negated()) == beyond
}

/// Whether a sphere reaches into a frustum: it is not beyond any of its planes.  `distance`
/// gives the signed distance of a point to a plane.
pub fn sphere_in_frustum<D: Fn(Plane, [Single; 3]) -> Single>(
    distance: D,
    center: &[Single; 3],
    radius: Single,
    planes: &[Plane; 6],
) -> (r: bool)
    requires
        forall|p: Plane, c: [Single; 3]| call_requires(distance, (p, c)),
    ensures
        r ==> forall|i: int|
            0 <= i < 6 ==> stands(distance, #[trigger] planes[i], *center, radius, false),
        !r ==> exists|i: int|
            0 <= i < 6 && stands(distance, #[trigger] planes[i], *center, radius, true),
{
    for i in 0..6usize
        invariant
            forall|p: Plane, c: [Single; 3]| call_requires(distance, (p, c)),
            forall|j: int|
                0 <= j < i ==> stands(distance, #[trigger] planes[j], *center, radius, false),
    {
        let d = distance(planes[i], *center);
        let beyond = d.lt(radius.neg());
        assert(stands(distance, planes[i as int], *center, radius, beyond));
        if beyond {
            return false;
        }
    }
    true
}

/// `raw` can be the coefficients of plane `i` of the frustum of the matrix `m`, before they are
/// divided by the length of the normal: the last row, plus the row that belongs to the plane
/// for the first of two opposite planes, minus it for the second.
pub open spec fn raw_plane<P: Fn(Single, Single) -> Single, M: Fn(Single, Single) -> Single>(
    plus: P,
    minus: M,
    m: [[Single; 4]; 4],
    i: int,
    raw: [Single; 4],
) -> bool {
    forall|c: int|
        0 <= c < 4 ==> if i % 2 == 0 {
            call_ensures(plus, (m[3][c], m[i / 2][c]), #[trigger] raw[c])
        } else {
            call_ensures(minus, (m[3][c], m[i / 2][c]), raw[c])
        }
}

/// The normal of the plane with the coefficients `raw`.
pub open spec fn normal_of(raw: [Single; 4]) -> [Single; 3] {
    [raw[0], raw[1], raw[2]]
}

/// `p` can be the plane with the coefficients `raw`, its normal made one long.
pub open spec fn scaled_plane<N: Fn([Single; 3]) -> Single, D: Fn(Single, Single) -> Single>(
    norm: N,
    divide: D,
    raw: [Single; 4],
    p: Plane,
) -> bool {
    exists|n: Single| #[trigger]
        call_ensures(norm, (normal_of(raw),), n) && (forall|c: int|
            0 <= c < 3 ==> call_ensures(divide, (raw[c], n), #[trigger] p.0[c])) && call_ensures(
            divide,
            (raw[3], n),
            p.1,
        )
}

/// `p` can be plane `i` of the frustum of the matrix `m`.
pub open spec fn plane_of<
    P: Fn(Single, Single) -> Single,
    M: Fn(Single, Single) -> Single,
    N: Fn([Single; 3]) -> Single,
    D: Fn(Single, Single) -> Single,
>(
    plus: P,
    minus: M,
    norm: N,
    divide: D,
    m: [[Single; 4]; 4],
    i: int,
    p: Plane,
) -> bool {
    exists|raw: [Single; 4]| #[trigger]
        raw_plane(plus, minus, m, i, raw) && scaled_plane(norm, divide, raw, p)
}

fn plane<
    P: Fn(Single, Single) -> Single,
    M: Fn(Single, Single) -> Single,
    N: Fn([Single; 3]) -> Single,
    D: Fn(Single, Single) -> Single,
>(plus: P, minus: M, norm: N, divide: D, m: &[[Single; 4]; 4], i: usize) -> (r: Plane)
    requires
        forall|a: Single, b: Single| call_requires(plus, (a, b)),
        forall|a: Single, b: Single| call_requires(minus, (a, b)),
        forall|v: [Single; 3]| call_requires(norm, (v,)),
        forall|a: Single, b: Single| call_requires(divide, (a, b)),
        i < 6,
    ensures
        plane_of(plus, minus, norm, divide, *m, i as int, r),
{
    let (a, b) = (m[3], m[i / 2]);
    let raw = if i % 2 == 0 {
        [plus(a[0], b[0]), plus(a[1], b[1]), plus(a[2], b[2]), plus(a[3], b[3])]
    } else {
        [minus(a[0], b[0]), minus(a[1], b[1]), minus(a[2], b[2]), minus(a[3], b[3])]
    };
    assert(raw_plane(plus, minus, *m, i as int, raw));
    let normal = [raw[0], raw[1], raw[2]];
    assert(normal =~= normal_of(raw));
    let n = norm(normal);
    let p = ([divide(raw[0], n), divide(raw[1], n), divide(raw[2], n)], divide(raw[3], n));
    assert(scaled_plane(norm, divide, raw, p));
    p
}

/// The six planes of the frustum of a matrix, as normals and distances: left, right, bottom,
/// top, near and far.
pub fn frustum_planes<
    P: Fn(Single, Single) -> Single + Copy,
    M: Fn(Single, Single) -> Single + Copy,
    N: Fn([Single; 3]) -> Single + Copy,
    D: Fn(Single, Single) -> Single + Copy,
>(plus: P, minus: M, norm: N, divide: D, m: &[[Single; 4]; 4]) -> (r: [Plane; 6])
    requires
        forall|a: Single, b: Single| call_requires(plus, (a, b)),
        forall|a: Single, b: Single| call_requires(minus, (a, b)),
        forall|v: [Single; 3]| call_requires(norm, (v,)),
        forall|a: Single, b: Single| call_requires(divide, (a, b)),
    ensures
        forall|i: int|
            0 <= i < 6 ==> plane_of(plus, minus, norm, divide, *m, i, #[trigger] r[i]),
{
    [
        plane(plus, minus, norm, divide, m, 0),
        plane(plus, minus, norm, divide, m, 1),
        plane(plus, minus, norm, divide, m, 2),
        plane(plus, minus, norm, divide, m, 3),
        plane(plus, minus, norm, divide, m, 4),
        plane(plus, minus, norm, divide, m, 5),
    ]
}

} // verus!
