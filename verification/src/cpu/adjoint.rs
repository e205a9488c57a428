//! The blur as a weighted sum over the whole image, and why it is its own adjoint.
//!
//! The laws speak of a reading `val` of the values as real numbers.  They are stated for a
//! multiply-accumulate kernel that rounds, with a bound on what all its roundings can come to,
//! and for one that is exact.

use super::blur::{
    blurred, blurs_to, column, columns_blurred, end_tap, first_tap, row, rows_blurred, taps_at,
    taps_to,
};
use super::forward::at;
use super::tiles::lemma_cell_at;
use crate::num::fold::{lemma_reaches_last, lemma_reaches_nothing, reaches};
use crate::num::single::{Single, ZERO};
use crate::num::sum::{
    abs, column_total, lemma_abs_product_bounded, lemma_total_bounded, lemma_total_ends,
    lemma_total_flat, lemma_total_grows, lemma_total_plus, lemma_total_same, lemma_total_scaled,
    lemma_total_swapped, row_total, total,
};
use vstd::arithmetic::div_mod::{lemma_fundamental_div_mod, lemma_mod_bound};
use vstd::prelude::*;

verus! {

// ── kernels ─────────────────────────────────────────────────────────────────────────────

/// Under the reading `val`, `mac` adds the exact product.
pub open spec fn exact<M: Fn(Single, Single, Single) -> Single>(
    mac: M,
    val: spec_fn(Single) -> real,
) -> bool {
    &&& val(Single { bits: ZERO }) == 0real
    &&& forall|acc: Single, a: Single, b: Single, r: Single| #[trigger]
        call_ensures(mac, (acc, a, b), r) ==> val(r) == val(acc) + val(a) * val(b)
}

/// Under the reading `val`, `mac` is off by at most `eps` on values within `m` of zero.
pub open spec fn near<M: Fn(Single, Single, Single) -> Single>(
    mac: M,
    val: spec_fn(Single) -> real,
    m: real,
    eps: real,
) -> bool {
    &&& val(Single { bits: ZERO }) == 0real
    &&& forall|acc: Single, a: Single, b: Single, r: Single| #[trigger]
        call_ensures(mac, (acc, a, b), r) && abs(val(acc)) <= m && abs(val(a)) <= m && abs(val(b))
            <= m ==> abs(val(r) - (val(acc) + val(a) * val(b))) <= eps
}

// ── weights ─────────────────────────────────────────────────────────────────────────────

/// The weight of position `s` of a line in its blur at position `x`.
pub open spec fn weight(val: spec_fn(Single) -> real, k: Seq<Single>, x: int, s: int) -> real {
    let i = s - x + k.len() / 2;
    if 0 <= i < k.len() {
        val(k[i])
    } else {
        0real
    }
}

/// The weight of pixel `q` of an image `w` wide in its blur at pixel `p`.
pub open spec fn pixel_weight(
    val: spec_fn(Single) -> real,
    k: Seq<Single>,
    w: int,
    p: int,
    q: int,
) -> real {
    weight(val, k, p % w, q % w) * weight(val, k, p / w, q / w)
}

/// An odd number of weights that are the same when mirrored.
pub open spec fn mirrored(k: Seq<Single>) -> bool {
    &&& k.len() % 2 == 1
    &&& forall|i: int| 0 <= i < k.len() ==> #[trigger] k[i] == k[k.len() - 1 - i]
}

proof fn lemma_weight_symmetric(val: spec_fn(Single) -> real, k: Seq<Single>, x: int, s: int)
    requires
        mirrored(k),
    ensures
        weight(val, k, x, s) == weight(val, k, s, x),
{
    let i = s - x + k.len() / 2;
    if 0 <= i < k.len() {
        assert(k[i] == k[k.len() - 1 - i]);
    }
}

/// With mirrored weights, pixel `q` counts in the blur of pixel `p` as much as `p` counts in
/// the blur of `q`.
pub proof fn pixel_weights_are_symmetric(
    val: spec_fn(Single) -> real,
    k: Seq<Single>,
    w: int,
    p: int,
    q: int,
)
    requires
        mirrored(k),
    ensures
        pixel_weight(val, k, w, p, q) == pixel_weight(val, k, w, q, p),
{
    lemma_weight_symmetric(val, k, p % w, q % w);
    lemma_weight_symmetric(val, k, p / w, q / w);
}

/// How far from zero the weights `k` lie, together.
pub open spec fn gain(val: spec_fn(Single) -> real, k: Seq<Single>) -> real {
    total(k.len(), |i: int| abs(val(k[i])))
}

/// What all roundings in the blur of a line at one position can come to.
pub open spec fn line_error(k: Seq<Single>, eps: real) -> real {
    (k.len() as real) * eps
}

/// What all roundings in the blur of an image at one pixel can come to.
pub open spec fn pixel_error(val: spec_fn(Single) -> real, k: Seq<Single>, eps: real) -> real {
    line_error(k, eps) + gain(val, k) * line_error(k, eps)
}

/// How far from zero the blur of a line can lie whose values lie within `c` of it.
pub open spec fn line_reach(
    val: spec_fn(Single) -> real,
    k: Seq<Single>,
    eps: real,
    c: real,
) -> real {
    gain(val, k) * c + line_error(k, eps)
}

/// The values of `line` lie within `c` of zero.
pub open spec fn within(val: spec_fn(Single) -> real, line: Seq<Single>, c: real) -> bool {
    forall|i: int| 0 <= i < line.len() ==> abs(val(#[trigger] line[i])) <= c
}

/// All that occurs in the blur of an image whose values lie within `c` of zero lies within `m`.
pub open spec fn roomy(
    val: spec_fn(Single) -> real,
    k: Seq<Single>,
    m: real,
    eps: real,
    c: real,
) -> bool {
    &&& 0real <= eps
    &&& 0real <= c <= m
    &&& within(val, k, m)
    &&& line_reach(val, k, eps, c) <= m
    &&& line_reach(val, k, eps, line_reach(val, k, eps, c)) <= m
}

// ── one line ────────────────────────────────────────────────────────────────────────────

/// The distances of the weights from zero.
spec fn sizes(val: spec_fn(Single) -> real, k: Seq<Single>) -> spec_fn(int) -> real {
    |i: int| abs(val(k[i]))
}

/// What position `s` of a line with the values `v` adds to its blur at position `x`.
spec fn share(
    val: spec_fn(Single) -> real,
    k: Seq<Single>,
    v: spec_fn(int) -> real,
    x: int,
) -> spec_fn(int) -> real {
    |s: int| weight(val, k, x, s) * v(s)
}

spec fn values(val: spec_fn(Single) -> real, line: Seq<Single>) -> spec_fn(int) -> real {
    |s: int| val(line[s])
}

proof fn lemma_gain(val: spec_fn(Single) -> real, k: Seq<Single>, j: nat)
    requires
        j <= k.len(),
    ensures
        0real <= total(j, sizes(val, k)) <= gain(val, k),
{
    lemma_total_same(k.len(), sizes(val, k), |i: int| abs(val(k[i])));
    lemma_total_grows(j, k.len(), sizes(val, k));
}

/// Positions that no weight falls on add nothing.
proof fn lemma_no_share(
    val: spec_fn(Single) -> real,
    k: Seq<Single>,
    v: spec_fn(int) -> real,
    x: int,
    s: int,
)
    requires
        s - x + k.len() / 2 < 0 || s - x + k.len() / 2 >= k.len(),
    ensures
        share(val, k, v, x)(s) == 0real,
{
    let y = v(s);
    assert(0real * y == 0real) by (nonlinear_arith);
}

/// The shares of the first positions lie as close to zero as the weights on them allow.
proof fn lemma_shares_bounded(
    val: spec_fn(Single) -> real,
    k: Seq<Single>,
    v: spec_fn(int) -> real,
    x: int,
    n: int,
    c: real,
    j: nat,
)
    requires
        0 <= x < n,
        0real <= c,
        forall|s: int| 0 <= s < n ==> abs(#[trigger] v(s)) <= c,
        j <= end_tap(x, n, k.len() as int) - first_tap(x, k.len() as int),
    ensures
        0 <= x + first_tap(x, k.len() as int) - k.len() / 2 + j <= n,
        abs(
            total(
                (x + first_tap(x, k.len() as int) - k.len() / 2 + j) as nat,
                share(val, k, v, x),
            ),
        ) <= total((first_tap(x, k.len() as int) + j) as nat, sizes(val, k)) * c,
    decreases j,
{
    let f = share(val, k, v, x);
    let lo = first_tap(x, k.len() as int);
    let s = x + lo - k.len() / 2;
    let z = sizes(val, k);
    if j == 0 {
        assert forall|i: int| 0 <= i < s implies #[trigger] f(i) == 0real by {
            lemma_no_share(val, k, v, x, i);
        }
        lemma_total_ends(0, s as nat, f);
        if k.len() > 0 {
            lemma_gain(val, k, lo as nat);
        }
        let t = total(lo as nat, z);
        assert(0real <= t * c) by (nonlinear_arith)
            requires
                0real <= t,
                0real <= c,
        ;
    } else {
        let p = (j - 1) as nat;
        lemma_shares_bounded(val, k, v, x, n, c, p);
        let w = val(k[lo + p]);
        assert(weight(val, k, x, s + p) == w);
        assert(f(s + p) == w * v(s + p));
        lemma_abs_product_bounded(w, v(s + p), c);
        assert(z(lo + p) == abs(w));
        let (t, u) = (total((lo + p) as nat, z), abs(w));
        assert((t + u) * c == t * c + u * c) by (nonlinear_arith);
    }
}

/// A weighted sum over a line lies as close to zero as its values and the weights allow.
proof fn lemma_sum_bounded(
    val: spec_fn(Single) -> real,
    k: Seq<Single>,
    v: spec_fn(int) -> real,
    x: int,
    n: int,
    c: real,
)
    requires
        0 <= x < n,
        0real <= c,
        forall|s: int| 0 <= s < n ==> abs(#[trigger] v(s)) <= c,
    ensures
        abs(total(n as nat, share(val, k, v, x))) <= gain(val, k) * c,
{
    let f = share(val, k, v, x);
    let lo = first_tap(x, k.len() as int);
    let hi = end_tap(x, n, k.len() as int);
    lemma_shares_bounded(val, k, v, x, n, c, (hi - lo) as nat);
    lemma_after_taps(val, k, v, x, n);
    lemma_gain(val, k, hi as nat);
    let (t, g) = (total(hi as nat, sizes(val, k)), gain(val, k));
    assert(t * c <= g * c) by (nonlinear_arith)
        requires
            t <= g,
            0real <= c,
    ;
}

/// Behind the last weight nothing is added.
proof fn lemma_after_taps(
    val: spec_fn(Single) -> real,
    k: Seq<Single>,
    v: spec_fn(int) -> real,
    x: int,
    n: int,
)
    requires
        0 <= x < n,
    ensures
        0 <= x + end_tap(x, n, k.len() as int) - k.len() / 2 <= n,
        total(n as nat, share(val, k, v, x)) == total(
            (x + end_tap(x, n, k.len() as int) - k.len() / 2) as nat,
            share(val, k, v, x),
        ),
{
    let f = share(val, k, v, x);
    let e = x + end_tap(x, n, k.len() as int) - k.len() / 2;
    assert forall|i: int| e <= i < n implies #[trigger] f(i) == 0real by {
        lemma_no_share(val, k, v, x, i);
    }
    lemma_total_ends(e as nat, n as nat, f);
}

/// After `j` weights, the positions up to the last of them have been summed, but for `j`
/// roundings.
proof fn lemma_taps<M: Fn(Single, Single, Single) -> Single>(
    mac: M,
    val: spec_fn(Single) -> real,
    m: real,
    eps: real,
    k: Seq<Single>,
    line: Seq<Single>,
    c: real,
    x: int,
    j: nat,
    r: Single,
)
    requires
        near(mac, val, m, eps),
        0real <= eps,
        0real <= c <= m,
        within(val, k, m),
        within(val, line, c),
        line_reach(val, k, eps, c) <= m,
        0 <= x < line.len(),
        j <= taps_at(x, line.len() as int, k.len() as int).len(),
        reaches(
            taps_to(mac, k, line, x),
            taps_at(x, line.len() as int, k.len() as int).take(j as int),
            Single { bits: ZERO },
            r,
        ),
    ensures
        0 <= x + first_tap(x, k.len() as int) - k.len() / 2 + j <= line.len(),
        abs(
            val(r) - total(
                (x + first_tap(x, k.len() as int) - k.len() / 2 + j) as nat,
                share(val, k, values(val, line), x),
            ),
        ) <= (j as real) * eps,
    decreases j,
{
    let step = taps_to(mac, k, line, x);
    let n = line.len() as int;
    let taps = taps_at(x, n, k.len() as int);
    let lo = first_tap(x, k.len() as int);
    let zero = Single { bits: ZERO };
    let v = values(val, line);
    let f = share(val, k, v, x);
    let s = x + lo - k.len() / 2;
    if j == 0 {
        assert(taps.take(0) =~= Seq::<int>::empty());
        lemma_reaches_nothing(step, zero, r);
        assert forall|i: int| 0 <= i < s implies #[trigger] f(i) == 0real by {
            lemma_no_share(val, k, v, x, i);
        }
        lemma_total_ends(0, s as nat, f);
        assert(0real * eps == 0real) by (nonlinear_arith);
    } else {
        let p = (j - 1) as nat;
        let q = lemma_reaches_last(step, taps.take(j as int), zero, r);
        assert(taps.take(j as int).drop_last() =~= taps.take(p as int));
        assert(taps.take(j as int).last() == lo + p);
        lemma_taps(mac, val, m, eps, k, line, c, x, p, q);
        lemma_shares_bounded(val, k, v, x, n, c, p);
        lemma_gain(val, k, (lo + p) as nat);
        let t = total((s + p) as nat, f);
        let (z, g) = (total((lo + p) as nat, sizes(val, k)), gain(val, k));
        assert(z * c <= g * c) by (nonlinear_arith)
            requires
                z <= g,
                0real <= c,
        ;
        let (pr, lr) = (p as real, k.len() as real);
        assert(pr * eps <= lr * eps) by (nonlinear_arith)
            requires
                pr <= lr,
                0real <= eps,
        ;
        assert(abs(val(q)) <= m);
        assert(abs(val(k[lo + p])) <= m);
        assert(abs(val(line[s + p])) <= c);
        assert(call_ensures(mac, (q, k[lo + p], line[s + p]), r));
        assert(f(s + p) == val(k[lo + p]) * val(line[s + p]));
        let jr = j as real;
        assert(jr == pr + 1real);
        assert(jr * eps == pr * eps + eps) by (nonlinear_arith)
            requires
                jr == pr + 1real,
        ;
    }
}

/// The blur of a line at a position is the weighted sum over the line, but for roundings.
proof fn lemma_line<M: Fn(Single, Single, Single) -> Single>(
    mac: M,
    val: spec_fn(Single) -> real,
    m: real,
    eps: real,
    k: Seq<Single>,
    line: Seq<Single>,
    c: real,
    x: int,
    r: Single,
)
    requires
        near(mac, val, m, eps),
        0real <= eps,
        0real <= c <= m,
        within(val, k, m),
        within(val, line, c),
        line_reach(val, k, eps, c) <= m,
        0 <= x < line.len(),
        blurs_to(mac, k, line, x, r),
    ensures
        abs(val(r) - total(line.len(), share(val, k, values(val, line), x))) <= line_error(k, eps),
        abs(val(r)) <= line_reach(val, k, eps, c),
{
    let n = line.len() as int;
    let v = values(val, line);
    let taps = taps_at(x, n, k.len() as int);
    let lo = first_tap(x, k.len() as int);
    let hi = end_tap(x, n, k.len() as int);
    assert(taps.take(taps.len() as int) =~= taps);
    lemma_taps(mac, val, m, eps, k, line, c, x, taps.len(), r);
    assert(taps.len() == hi - lo);
    lemma_after_taps(val, k, v, x, n);
    lemma_sum_bounded(val, k, v, x, n, c);
    let (jr, lr) = (taps.len() as real, k.len() as real);
    assert(jr * eps <= lr * eps) by (nonlinear_arith)
        requires
            jr <= lr,
            0real <= eps,
    ;
}

// ── the whole image ─────────────────────────────────────────────────────────────────────

/// What pixel `q` adds to the blur at pixel `p`.
pub open spec fn pixel_share(
    val: spec_fn(Single) -> real,
    k: Seq<Single>,
    w: int,
    src: Seq<Single>,
    p: int,
) -> spec_fn(int) -> real {
    |q: int| pixel_weight(val, k, w, p, q) * val(src[q])
}

/// The weighted sum over all pixels that pixel `p` of a blurred image stands for.
pub open spec fn weighted(
    val: spec_fn(Single) -> real,
    k: Seq<Single>,
    w: int,
    src: Seq<Single>,
    p: int,
) -> real {
    total(src.len(), pixel_share(val, k, w, src, p))
}

/// The weighted sum over row `t` of an image.
spec fn row_sum(
    val: spec_fn(Single) -> real,
    k: Seq<Single>,
    w: int,
    src: Seq<Single>,
    x: int,
) -> spec_fn(int) -> real {
    |t: int| total(w as nat, share(val, k, values(val, row(src, w, t)), x))
}

/// A weighted sum over all pixels is one over the rows and then the columns.
proof fn lemma_weighted_by_rows(
    val: spec_fn(Single) -> real,
    k: Seq<Single>,
    w: int,
    h: int,
    src: Seq<Single>,
    x: int,
    y: int,
)
    requires
        0 <= x < w,
        0 <= y < h,
        src.len() == w * h,
    ensures
        weighted(val, k, w, src, at(w, x, y)) == total(
            h as nat,
            share(val, k, row_sum(val, k, w, src, x), y),
        ),
{
    let p = at(w, x, y);
    lemma_cell_at(x, y, w, h);
    let f = pixel_share(val, k, w, src, p);
    let rows = |t: int| total(w as nat, |s: int| f(t * (w as nat) + s));
    let g = share(val, k, row_sum(val, k, w, src, x), y);
    assert forall|t: int| 0 <= t < h implies #[trigger] g(t) == rows(t) by {
        let inner = row(src, w, t);
        let c = weight(val, k, y, t);
        let e = share(val, k, values(val, inner), x);
        lemma_total_scaled(w as nat, c, e);
        let scaled = |s: int| c * e(s);
        let flat = |s: int| f(t * (w as nat) + s);
        assert forall|s: int| 0 <= s < w implies #[trigger] scaled(s) == flat(s) by {
            lemma_cell_at(s, t, w, h);
            assert(inner[s] == src[at(w, s, t)]);
            let (a, v) = (weight(val, k, x, s), val(src[at(w, s, t)]));
            assert(c * (a * v) == (a * c) * v) by (nonlinear_arith);
        }
        lemma_total_same(w as nat, scaled, flat);
    }
    lemma_total_same(h as nat, g, rows);
    lemma_total_flat(w as nat, h as nat, f);
}

/// A blurred image has in each pixel the weighted sum over all pixels, but for roundings.
pub proof fn blur_is_nearly_a_weighted_sum<M: Fn(Single, Single, Single) -> Single>(
    mac: M,
    val: spec_fn(Single) -> real,
    m: real,
    eps: real,
    k: Seq<Single>,
    w: int,
    h: int,
    src: Seq<Single>,
    c: real,
    out: Seq<Single>,
    p: int,
)
    requires
        near(mac, val, m, eps),
        roomy(val, k, m, eps, c),
        0 <= w,
        0 <= h,
        src.len() == w * h,
        within(val, src, c),
        blurred(mac, k, w, h, src, out),
        0 <= p < w * h,
    ensures
        out.len() == w * h,
        abs(val(out[p]) - weighted(val, k, w, src, p)) <= pixel_error(val, k, eps),
{
    let tmp = choose|tmp: Seq<Single>| #[trigger]
        rows_blurred(mac, k, w, h, src, tmp) && columns_blurred(mac, k, w, h, tmp, out);
    assert(0 < w) by (nonlinear_arith)
        requires
            0 <= w,
            0 <= p < w * h,
    ;
    let (x, y) = (p % w, p / w);
    lemma_fundamental_div_mod(p, w);
    lemma_mod_bound(p, w);
    assert(0 <= y < h) by (nonlinear_arith)
        requires
            0 <= p < w * h,
            0 < w,
            p == w * y + x,
            0 <= x < w,
    ;
    assert(w * y == y * w) by (nonlinear_arith);
    assert(p == at(w, x, y));
    let e1 = line_error(k, eps);
    let c1 = line_reach(val, k, eps, c);
    let line = column(tmp, w, h, x);
    let exact_rows = row_sum(val, k, w, src, x);
    let found = values(val, line);
    let off = |t: int| found(t) - exact_rows(t);
    assert forall|t: int| 0 <= t < h implies abs(#[trigger] off(t)) <= e1 && abs(val(line[t]))
        <= c1 by {
        let inner = row(src, w, t);
        assert forall|s: int| 0 <= s < w implies abs(val(#[trigger] inner[s])) <= c by {
            lemma_cell_at(s, t, w, h);
            assert(inner[s] == src[at(w, s, t)]);
        }
        lemma_line(mac, val, m, eps, k, inner, c, x, tmp[at(w, x, t)]);
        assert(line[t] == tmp[at(w, x, t)]);
    }
    assert forall|t: int| 0 <= t < line.len() implies abs(val(#[trigger] line[t])) <= c1 by {
        assert(abs(off(t)) <= e1);
    }
    assert(abs(off(y)) <= e1 && 0real <= e1 && 0real <= c1);
    lemma_line(mac, val, m, eps, k, line, c1, y, out[at(w, x, y)]);
    lemma_sum_bounded(val, k, off, y, h, e1);
    lemma_weighted_by_rows(val, k, w, h, src, x, y);
    let a = share(val, k, exact_rows, y);
    let b = share(val, k, off, y);
    lemma_total_plus(h as nat, a, b);
    let ab = |t: int| a(t) + b(t);
    let f = share(val, k, found, y);
    assert forall|t: int| 0 <= t < h implies #[trigger] ab(t) == f(t) by {
        let (u, i, j) = (weight(val, k, y, t), exact_rows(t), found(t));
        assert(u * i + u * (j - i) == u * j) by (nonlinear_arith);
    }
    lemma_total_same(h as nat, ab, f);
}

/// Weighted sums with mirrored weights may be taken of either factor of a product.
proof fn lemma_weighted_symmetric(
    val: spec_fn(Single) -> real,
    k: Seq<Single>,
    w: int,
    a: Seq<Single>,
    b: Seq<Single>,
)
    requires
        mirrored(k),
        a.len() == b.len(),
    ensures
        total(a.len(), |p: int| weighted(val, k, w, a, p) * val(b[p])) == total(
            a.len(),
            |p: int| val(a[p]) * weighted(val, k, w, b, p),
        ),
{
    let n = a.len();
    let g = |p: int, q: int| val(b[p]) * (pixel_weight(val, k, w, p, q) * val(a[q]));
    let left = |p: int| weighted(val, k, w, a, p) * val(b[p]);
    let right = |q: int| val(a[q]) * weighted(val, k, w, b, q);
    let rows = |p: int| row_total(n, g, p);
    let columns = |q: int| column_total(n, g, q);
    assert forall|p: int| 0 <= p < n implies #[trigger] left(p) == rows(p) by {
        let f = pixel_share(val, k, w, a, p);
        let c = val(b[p]);
        lemma_total_scaled(n, c, f);
        lemma_total_same(n, |q: int| c * f(q), |q: int| g(p, q));
        let t = total(n, f);
        assert(t * c == c * t) by (nonlinear_arith);
    }
    assert forall|q: int| 0 <= q < n implies #[trigger] right(q) == columns(q) by {
        let f = pixel_share(val, k, w, b, q);
        let c = val(a[q]);
        lemma_total_scaled(n, c, f);
        let scaled = |p: int| c * f(p);
        let turned = |p: int| g(p, q);
        assert forall|p: int| 0 <= p < n implies #[trigger] scaled(p) == turned(p) by {
            pixel_weights_are_symmetric(val, k, w, p, q);
            let (u, v) = (pixel_weight(val, k, w, p, q), val(b[p]));
            assert(c * (u * v) == v * (u * c)) by (nonlinear_arith);
        }
        lemma_total_same(n, scaled, turned);
    }
    lemma_total_same(n, left, rows);
    lemma_total_same(n, right, columns);
    lemma_total_swapped(n, n, g);
}

/// `a[0] * b[0] + a[1] * b[1] + ..`, over the first `n` values.
pub open spec fn dot(
    val: spec_fn(Single) -> real,
    n: nat,
    a: Seq<Single>,
    b: Seq<Single>,
) -> real {
    total(n, |p: int| val(a[p]) * val(b[p]))
}

/// How far from zero the values of `a` lie, together.
pub open spec fn mass(val: spec_fn(Single) -> real, a: Seq<Single>) -> real {
    total(a.len(), |p: int| abs(val(a[p])))
}

/// If the values of `r` are off by at most `e` from the sums `s`, so are products with them.
proof fn lemma_dot_off(
    val: spec_fn(Single) -> real,
    r: Seq<Single>,
    s: spec_fn(int) -> real,
    b: Seq<Single>,
    e: real,
)
    requires
        r.len() == b.len(),
        forall|p: int| 0 <= p < b.len() ==> abs(val(r[p]) - #[trigger] s(p)) <= e,
    ensures
        abs(dot(val, b.len(), r, b) - total(b.len(), |p: int| s(p) * val(b[p]))) <= e * mass(
            val,
            b,
        ),
{
    let n = b.len();
    let sums = |p: int| s(p) * val(b[p]);
    let offs = |p: int| (val(r[p]) - s(p)) * val(b[p]);
    let both = |p: int| sums(p) + offs(p);
    let dots = |p: int| val(r[p]) * val(b[p]);
    let size = |p: int| abs(val(b[p]));
    let most = |p: int| e * size(p);
    assert forall|p: int| 0 <= p < n implies abs(#[trigger] offs(p)) <= most(p) && both(p)
        == dots(p) by {
        let (x, y, z) = (val(r[p]), s(p), val(b[p]));
        assert(abs(x - y) <= e);
        lemma_abs_product_bounded(z, x - y, e);
        assert(z * (x - y) == (x - y) * z && abs(z) * e == e * abs(z)) by (nonlinear_arith);
        assert(y * z + (x - y) * z == x * z) by (nonlinear_arith);
    }
    assert forall|p: int| 0 <= p < n implies #[trigger] both(p) == dots(p) by {
        assert(abs(offs(p)) <= most(p));
    }
    lemma_total_plus(n, sums, offs);
    lemma_total_same(n, both, dots);
    lemma_total_bounded(n, offs, most);
    lemma_total_scaled(n, e, size);
}

/// With mirrored weights the blur is its own adjoint, up to rounding: the product of a blurred
/// image with another is that of the image with the other blurred, but for what the roundings
/// at a pixel can come to, times the size of both images.
pub proof fn blur_is_nearly_self_adjoint<M: Fn(Single, Single, Single) -> Single>(
    mac: M,
    val: spec_fn(Single) -> real,
    m: real,
    eps: real,
    k: Seq<Single>,
    w: int,
    h: int,
    a: Seq<Single>,
    b: Seq<Single>,
    c: real,
    ablur: Seq<Single>,
    bblur: Seq<Single>,
)
    requires
        near(mac, val, m, eps),
        roomy(val, k, m, eps, c),
        mirrored(k),
        0 <= w,
        0 <= h,
        a.len() == w * h,
        b.len() == w * h,
        within(val, a, c),
        within(val, b, c),
        blurred(mac, k, w, h, a, ablur),
        blurred(mac, k, w, h, b, bblur),
    ensures
        ablur.len() == w * h,
        bblur.len() == w * h,
        abs(dot(val, (w * h) as nat, ablur, b) - dot(val, (w * h) as nat, a, bblur))
            <= pixel_error(val, k, eps) * (mass(val, a) + mass(val, b)),
{
    let n = (w * h) as nat;
    let e = pixel_error(val, k, eps);
    let sa = |p: int| weighted(val, k, w, a, p);
    let sb = |p: int| weighted(val, k, w, b, p);
    assert forall|p: int| 0 <= p < n implies abs(val(ablur[p]) - #[trigger] sa(p)) <= e by {
        blur_is_nearly_a_weighted_sum(mac, val, m, eps, k, w, h, a, c, ablur, p);
    }
    assert forall|p: int| 0 <= p < n implies abs(val(bblur[p]) - #[trigger] sb(p)) <= e by {
        blur_is_nearly_a_weighted_sum(mac, val, m, eps, k, w, h, b, c, bblur, p);
    }
    lemma_dot_off(val, ablur, sa, b, e);
    lemma_dot_off(val, bblur, sb, a, e);
    lemma_weighted_symmetric(val, k, w, a, b);
    lemma_total_same(
        n,
        |p: int| sa(p) * val(b[p]),
        |p: int| weighted(val, k, w, a, p) * val(b[p]),
    );
    let one = |p: int| sb(p) * val(a[p]);
    let other = |p: int| val(a[p]) * weighted(val, k, w, b, p);
    assert forall|p: int| 0 <= p < n implies #[trigger] one(p) == other(p) by {
        let (x, y) = (sb(p), val(a[p]));
        assert(x * y == y * x) by (nonlinear_arith);
    }
    lemma_total_same(n, one, other);
    let turned = |p: int| val(bblur[p]) * val(a[p]);
    let plain = |p: int| val(a[p]) * val(bblur[p]);
    assert forall|p: int| 0 <= p < n implies #[trigger] turned(p) == plain(p) by {
        let (x, y) = (val(bblur[p]), val(a[p]));
        assert(x * y == y * x) by (nonlinear_arith);
    }
    lemma_total_same(n, turned, plain);
    let (u, v) = (mass(val, a), mass(val, b));
    assert(e * (u + v) == e * u + e * v) by (nonlinear_arith);
}

// ── without rounding ────────────────────────────────────────────────────────────────────

/// An exact kernel leaves room for images of any size.
proof fn lemma_exact_is_near<M: Fn(Single, Single, Single) -> Single>(
    mac: M,
    val: spec_fn(Single) -> real,
    k: Seq<Single>,
    c: real,
) -> (m: real)
    requires
        exact(mac, val),
        0real <= c,
    ensures
        near(mac, val, m, 0real),
        roomy(val, k, m, 0real, c),
        pixel_error(val, k, 0real) == 0real,
{
    let g = gain(val, k);
    lemma_gain(val, k, k.len());
    lemma_total_grows(k.len(), k.len(), sizes(val, k));
    let m = g + c + g * c + g * (g * c);
    let n = k.len() as real;
    assert(n * 0real == 0real && g * 0real == 0real) by (nonlinear_arith);
    assert(0real <= g * c && 0real <= g * (g * c)) by (nonlinear_arith)
        requires
            0real <= g,
            0real <= c,
    ;
    assert forall|i: int| 0 <= i < k.len() implies abs(val(#[trigger] k[i])) <= m by {
        assert(sizes(val, k)(i) <= total(k.len(), sizes(val, k)));
    }
    m
}

/// The values of an image lie within its size of zero.
proof fn lemma_mass(val: spec_fn(Single) -> real, a: Seq<Single>)
    ensures
        0real <= mass(val, a),
        within(val, a, mass(val, a)),
{
    let f = |p: int| abs(val(a[p]));
    lemma_total_grows(0, a.len(), f);
    assert forall|i: int| 0 <= i < a.len() implies abs(val(#[trigger] a[i])) <= mass(val, a) by {
        assert(f(i) <= total(a.len(), f));
    }
}

/// With an exact kernel, a blurred image has in each pixel the weighted sum over all pixels.
pub proof fn blur_is_a_weighted_sum<M: Fn(Single, Single, Single) -> Single>(
    mac: M,
    val: spec_fn(Single) -> real,
    k: Seq<Single>,
    w: int,
    h: int,
    src: Seq<Single>,
    out: Seq<Single>,
    p: int,
)
    requires
        exact(mac, val),
        0 <= w,
        0 <= h,
        src.len() == w * h,
        blurred(mac, k, w, h, src, out),
        0 <= p < w * h,
    ensures
        out.len() == w * h,
        val(out[p]) == weighted(val, k, w, src, p),
{
    let c = mass(val, src);
    lemma_mass(val, src);
    let m = lemma_exact_is_near(mac, val, k, c);
    blur_is_nearly_a_weighted_sum(mac, val, m, 0real, k, w, h, src, c, out, p);
}

/// With mirrored weights and an exact kernel the blur is its own adjoint: the product of a
/// blurred image with another is that of the image with the other blurred.
pub proof fn blur_is_self_adjoint<M: Fn(Single, Single, Single) -> Single>(
    mac: M,
    val: spec_fn(Single) -> real,
    k: Seq<Single>,
    w: int,
    h: int,
    a: Seq<Single>,
    b: Seq<Single>,
    ablur: Seq<Single>,
    bblur: Seq<Single>,
)
    requires
        exact(mac, val),
        mirrored(k),
        0 <= w,
        0 <= h,
        a.len() == w * h,
        b.len() == w * h,
        blurred(mac, k, w, h, a, ablur),
        blurred(mac, k, w, h, b, bblur),
    ensures
        ablur.len() == w * h,
        bblur.len() == w * h,
        dot(val, (w * h) as nat, ablur, b) == dot(val, (w * h) as nat, a, bblur),
{
    let c = mass(val, a) + mass(val, b);
    lemma_mass(val, a);
    lemma_mass(val, b);
    assert forall|i: int| 0 <= i < a.len() implies abs(val(#[trigger] a[i])) <= c by {}
    assert forall|i: int| 0 <= i < b.len() implies abs(val(#[trigger] b[i])) <= c by {}
    let m = lemma_exact_is_near(mac, val, k, c);
    blur_is_nearly_self_adjoint(mac, val, m, 0real, k, w, h, a, b, c, ablur, bblur);
    let s = mass(val, a) + mass(val, b);
    assert(0real * s == 0real) by (nonlinear_arith);
}

} // verus!
