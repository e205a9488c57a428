//! A separable blur with zero padding.
//!
//! `mac` is the multiply-accumulate kernel: what `acc` becomes when a weight and a value are
//! multiplied onto it.

use super::forward::at;
use super::tiles::lemma_cell_at;
use crate::num::fold::{lemma_reaches_nothing, lemma_reaches_push, reaches};
use crate::num::single::{Single, ZERO};
use vstd::prelude::*;

verus! {

/// The first weight that falls on the line at position `x`.
pub open spec fn first_tap(x: int, taps: int) -> int {
    if x < taps / 2 {
        taps / 2 - x
    } else {
        0
    }
}

/// One past the last weight that falls on the line of length `n` at position `x`.
pub open spec fn end_tap(x: int, n: int, taps: int) -> int {
    if taps - taps / 2 <= n - x {
        taps
    } else {
        n - x + taps / 2
    }
}

/// The weights that fall on the line, in ascending order.
pub open spec fn taps_at(x: int, n: int, taps: int) -> Seq<int> {
    let lo = first_tap(x, taps);
    Seq::new((end_tap(x, n, taps) - lo) as nat, |j: int| lo + j)
}

/// Weight `i` is used at position `x` exactly if it falls on a position of the line.
pub proof fn taps_fall_on_the_line(x: int, n: int, taps: int, i: int)
    requires
        0 <= x < n,
        0 <= taps,
    ensures
        taps_at(x, n, taps).contains(i) <==> 0 <= i < taps && 0 <= x + i - taps / 2 < n,
{
    let lo = first_tap(x, taps);
    let hi = end_tap(x, n, taps);
    if lo <= i < hi {
        assert(taps_at(x, n, taps)[i - lo] == i);
    }
}

/// With an odd number of weights the blur is symmetric: position `s` counts at `x` with
/// weight `i` exactly if `x` counts at `s` with the mirrored weight.  What follows for whole
/// images stands in [`super::adjoint`].
pub proof fn blur_is_symmetric(x: int, s: int, n: int, taps: int, i: int)
    requires
        0 <= x < n,
        0 <= s < n,
        0 <= taps,
        taps % 2 == 1,
    ensures
        taps_at(x, n, taps).contains(i) && s == x + i - taps / 2 <==> taps_at(s, n, taps).contains(
            taps - 1 - i,
        ) && x == s + (taps - 1 - i) - taps / 2,
{
    taps_fall_on_the_line(x, n, taps, i);
    taps_fall_on_the_line(s, n, taps, taps - 1 - i);
}

/// `acc1` can be `acc0` with weight `i` of the line at position `x` added.
pub open spec fn taps_to<M: Fn(Single, Single, Single) -> Single>(
    mac: M,
    k: Seq<Single>,
    line: Seq<Single>,
    x: int,
) -> spec_fn(Single, int, Single) -> bool {
    |acc0: Single, i: int, acc1: Single|
        call_ensures(mac, (acc0, k[i], line[x + i - k.len() / 2]), acc1)
}

/// `r` can be the weighted sum around position `x` of a line.
pub open spec fn blurs_to<M: Fn(Single, Single, Single) -> Single>(
    mac: M,
    k: Seq<Single>,
    line: Seq<Single>,
    x: int,
    r: Single,
) -> bool {
    reaches(
        taps_to(mac, k, line, x),
        taps_at(x, line.len() as int, k.len() as int),
        Single { bits: ZERO },
        r,
    )
}

pub open spec fn row(src: Seq<Single>, w: int, y: int) -> Seq<Single> {
    Seq::new(w as nat, |x: int| src[at(w, x, y)])
}

pub open spec fn column(src: Seq<Single>, w: int, h: int, x: int) -> Seq<Single> {
    Seq::new(h as nat, |y: int| src[at(w, x, y)])
}

/// `tmp` can be `src` with its rows blurred.
pub open spec fn rows_blurred<M: Fn(Single, Single, Single) -> Single>(
    mac: M,
    k: Seq<Single>,
    w: int,
    h: int,
    src: Seq<Single>,
    tmp: Seq<Single>,
) -> bool {
    &&& tmp.len() == w * h
    &&& forall|x: int, y: int|
        0 <= x < w && 0 <= y < h ==> blurs_to(
            mac,
            k,
            row(src, w, y),
            x,
            tmp[#[trigger] at(w, x, y)],
        )
}

/// `out` can be `tmp` with its columns blurred.
pub open spec fn columns_blurred<M: Fn(Single, Single, Single) -> Single>(
    mac: M,
    k: Seq<Single>,
    w: int,
    h: int,
    tmp: Seq<Single>,
    out: Seq<Single>,
) -> bool {
    &&& out.len() == w * h
    &&& forall|x: int, y: int|
        0 <= x < w && 0 <= y < h ==> blurs_to(
            mac,
            k,
            column(tmp, w, h, x),
            y,
            out[#[trigger] at(w, x, y)],
        )
}

/// `out` can be the `w` by `h` image `src`, blurred along its rows and then its columns.
pub open spec fn blurred<M: Fn(Single, Single, Single) -> Single>(
    mac: M,
    k: Seq<Single>,
    w: int,
    h: int,
    src: Seq<Single>,
    out: Seq<Single>,
) -> bool {
    exists|tmp: Seq<Single>| #[trigger]
        rows_blurred(mac, k, w, h, src, tmp) && columns_blurred(mac, k, w, h, tmp, out)
}

/// Value `v` stands at place `j` of a line that begins at `base` and has its values `stride`
/// apart.
spec fn stands(src: Seq<Single>, base: int, stride: int, j: int, v: Single) -> bool {
    &&& 0 <= j * stride
    &&& base + j * stride < src.len()
    &&& v == src[base + j * stride]
}

/// `line` holds `n` values of `src` from `base` on, `stride` apart.
spec fn line_in(src: Seq<Single>, base: int, stride: int, n: int, line: Seq<Single>) -> bool {
    &&& line.len() == n
    &&& forall|j: int| 0 <= j < n ==> stands(src, base, stride, j, #[trigger] line[j])
}

/// The weighted sum around position `x` of a line of `n` values, which stand in `src` from
/// `base` on, `stride` apart.
fn weigh<M: Fn(Single, Single, Single) -> Single>(
    mac: M,
    k: &[Single],
    src: &[Single],
    base: usize,
    stride: usize,
    n: usize,
    x: usize,
    Ghost(line): Ghost<Seq<Single>>,
) -> (r: Single)
    requires
        forall|a: Single, b: Single, c: Single| call_requires(mac, (a, b, c)),
        x < n,
        line_in(src@, base as int, stride as int, n as int, line),
    ensures
        blurs_to(mac, k@, line, x as int, r),
{
    let radius = k.len() / 2;
    let lo = if x < radius {
        radius - x
    } else {
        0
    };
    let hi = if k.len() - radius <= n - x {
        k.len()
    } else {
        n - x + radius
    };
    let ghost step = taps_to(mac, k@, line, x as int);
    let ghost events = taps_at(x as int, n as int, k.len() as int);
    let zero = Single { bits: ZERO };
    let mut acc = zero;
    proof {
        lemma_reaches_nothing(step, zero, acc);
        assert(events.take(0) =~= Seq::<int>::empty());
    }
    let mut i = lo;
    while i < hi
        invariant
            forall|a: Single, b: Single, c: Single| call_requires(mac, (a, b, c)),
            x < n,
            line_in(src@, base as int, stride as int, n as int, line),
            radius == k.len() / 2,
            lo == first_tap(x as int, k.len() as int),
            hi == end_tap(x as int, n as int, k.len() as int),
            lo <= i,
            i <= hi || hi < lo,
            events == taps_at(x as int, n as int, k.len() as int),
            step == taps_to(mac, k@, line, x as int),
            zero == (Single { bits: ZERO }),
            reaches(step, events.take(i - lo), zero, acc),
        decreases hi - i,
    {
        let ghost acc0 = acc;
        let j = if i >= radius {
            x + (i - radius)
        } else {
            x - (radius - i)
        };
        assert(stands(src@, base as int, stride as int, j as int, line[j as int]));
        acc = mac(acc, k[i], src[base + j * stride]);
        proof {
            assert(step(acc0, i as int, acc));
            lemma_reaches_push(step, events.take(i - lo), zero, acc0, i as int, acc);
            assert(events.take(i - lo).push(i as int) =~= events.take(i + 1 - lo));
        }
        i += 1;
    }
    assert(events.take(i - lo) =~= events);
    acc
}

/// Blurs a `w` by `h` image along its rows and then its columns; beyond the border all is
/// zero.
pub fn blur<M: Fn(Single, Single, Single) -> Single + Copy>(
    mac: M,
    src: &[Single],
    w: usize,
    h: usize,
    k: &[Single],
) -> (out: Vec<Single>)
    requires
        forall|a: Single, b: Single, c: Single| call_requires(mac, (a, b, c)),
        src.len() == w * h,
    ensures
        out.len() == w * h,
        blurred(mac, k@, w as int, h as int, src@, out@),
{
    let mut tmp: Vec<Single> = Vec::new();
    assert(0 * w == 0);
    for y in 0..h
        invariant
            forall|a: Single, b: Single, c: Single| call_requires(mac, (a, b, c)),
            src.len() == w * h,
            tmp.len() == y * w,
            forall|i: int, j: int|
                0 <= i < w && 0 <= j < y ==> blurs_to(
                    mac,
                    k@,
                    row(src@, w as int, j),
                    i,
                    tmp[#[trigger] at(w as int, i, j)],
                ),
    {
        for x in 0..w
            invariant
                forall|a: Single, b: Single, c: Single| call_requires(mac, (a, b, c)),
                src.len() == w * h,
                y < h,
                tmp.len() == y * w + x,
                forall|i: int, j: int|
                    0 <= i < w && 0 <= j && (j < y || (j == y && i < x)) ==> blurs_to(
                        mac,
                        k@,
                        row(src@, w as int, j),
                        i,
                        tmp[#[trigger] at(w as int, i, j)],
                    ),
        {
            let ghost before = tmp@;
            let ghost line = row(src@, w as int, y as int);
            proof {
                lemma_cell_at(0, y as int, w as int, h as int);
                assert forall|j: int| 0 <= j < w implies stands(
                    src@,
                    y * w,
                    1,
                    j,
                    #[trigger] line[j],
                ) by {
                    lemma_cell_at(j, y as int, w as int, h as int);
                }
            }
            let v = weigh(mac, k, src, y * w, 1, w, x, Ghost(line));
            tmp.push(v);
            proof {
                assert forall|i: int, j: int|
                    0 <= i < w && 0 <= j && (j < y || (j == y && i < x + 1)) implies blurs_to(
                    mac,
                    k@,
                    row(src@, w as int, j),
                    i,
                    tmp[#[trigger] at(w as int, i, j)],
                ) by {
                    if j < y || i < x {
                        lemma_earlier(i, j, x as int, y as int, w as int);
                        assert(tmp@[at(w as int, i, j)] == before[at(w as int, i, j)]);
                    }
                }
            }
        }
        assert((y + 1) * w == y * w + w) by (nonlinear_arith);
    }
    assert(h * w == w * h) by (nonlinear_arith);
    assert(rows_blurred(mac, k@, w as int, h as int, src@, tmp@));
    let mut out: Vec<Single> = Vec::new();
    for y in 0..h
        invariant
            forall|a: Single, b: Single, c: Single| call_requires(mac, (a, b, c)),
            tmp.len() == w * h,
            out.len() == y * w,
            forall|i: int, j: int|
                0 <= i < w && 0 <= j < y ==> blurs_to(
                    mac,
                    k@,
                    column(tmp@, w as int, h as int, i),
                    j,
                    out[#[trigger] at(w as int, i, j)],
                ),
    {
        for x in 0..w
            invariant
                forall|a: Single, b: Single, c: Single| call_requires(mac, (a, b, c)),
                tmp.len() == w * h,
                y < h,
                out.len() == y * w + x,
                forall|i: int, j: int|
                    0 <= i < w && 0 <= j && (j < y || (j == y && i < x)) ==> blurs_to(
                        mac,
                        k@,
                        column(tmp@, w as int, h as int, i),
                        j,
                        out[#[trigger] at(w as int, i, j)],
                    ),
        {
            let ghost before = out@;
            let ghost line = column(tmp@, w as int, h as int, x as int);
            proof {
                assert forall|j: int| 0 <= j < h implies stands(
                    tmp@,
                    x as int,
                    w as int,
                    j,
                    #[trigger] line[j],
                ) by {
                    lemma_cell_at(x as int, j, w as int, h as int);
                    lemma_cell_at(0, j, w as int, h as int);
                }
            }
            let v = weigh(mac, k, &tmp, x, w, h, y, Ghost(line));
            out.push(v);
            proof {
                assert forall|i: int, j: int|
                    0 <= i < w && 0 <= j && (j < y || (j == y && i < x + 1)) implies blurs_to(
                    mac,
                    k@,
                    column(tmp@, w as int, h as int, i),
                    j,
                    out[#[trigger] at(w as int, i, j)],
                ) by {
                    if j < y || i < x {
                        lemma_earlier(i, j, x as int, y as int, w as int);
                        assert(out@[at(w as int, i, j)] == before[at(w as int, i, j)]);
                    }
                }
            }
        }
        assert((y + 1) * w == y * w + w) by (nonlinear_arith);
    }
    out
}

/// Pixels above, or before in the same row, come earlier.
pub proof fn lemma_earlier(x: int, y: int, px: int, py: int, w: int)
    requires
        0 <= x < w,
        0 <= y,
        0 <= px,
        y < py || (y == py && x < px),
    ensures
        0 <= at(w, x, y) < at(w, px, py),
{
    assert(0 <= y * w) by (nonlinear_arith)
        requires
            0 <= y,
            0 <= w,
    ;
    if y < py {
        assert(y * w + w <= py * w) by (nonlinear_arith)
            requires
                y + 1 <= py,
                0 <= w,
        ;
    }
}

} // verus!
