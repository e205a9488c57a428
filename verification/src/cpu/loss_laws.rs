//! What the loss of an image is, and what its gradient is made of.

use super::adjoint::{blur_is_a_weighted_sum, exact, pixel_share, pixel_weight};
use super::blur::blurred;
use super::loss::{
    channel, channel_step, channels_compared, derivatives_mapped, loss_outcome, miss_step,
    moments_mapped, sample_slope, ssim_outcome, ssim_step, target_of, terms_mapped, LossParts,
    Moments, Slope, SsimMaps, Terms,
};
use crate::num::fold::{reaches, upto};
use crate::num::reading::{adds, lemma_fold_sums, multiplies, reads_zero};
use crate::num::single::{Single, ZERO};
use crate::num::sum::{abs, lemma_total_plus, lemma_total_same, lemma_total_scaled, total};
use vstd::prelude::*;

verus! {

/// The sum over all pixels of `v`, weighted as they count in the blur at pixel `p`.
pub open spec fn blur_of(
    val: spec_fn(Single) -> real,
    k: Seq<Single>,
    w: int,
    n: nat,
    v: spec_fn(int) -> real,
    p: int,
) -> real {
    total(n, |q: int| pixel_weight(val, k, w, p, q) * v(q))
}

proof fn lemma_blur_of<M: Fn(Single, Single, Single) -> Single>(
    mac: M,
    val: spec_fn(Single) -> real,
    k: Seq<Single>,
    w: int,
    h: int,
    src: Seq<Single>,
    out: Seq<Single>,
    v: spec_fn(int) -> real,
    p: int,
)
    requires
        exact(mac, val),
        0 <= w,
        0 <= h,
        src.len() == w * h,
        blurred(mac, k, w, h, src, out),
        forall|q: int| 0 <= q < w * h ==> val(#[trigger] src[q]) == v(q),
        0 <= p < w * h,
    ensures
        val(out[p]) == blur_of(val, k, w, (w * h) as nat, v, p),
{
    blur_is_a_weighted_sum(mac, val, k, w, h, src, out, p);
    let f = pixel_share(val, k, w, src, p);
    let g = |q: int| pixel_weight(val, k, w, p, q) * v(q);
    assert forall|q: int| 0 <= q < w * h implies #[trigger] f(q) == g(q) by {
        assert(val(src[q]) == v(q));
    }
    lemma_total_same((w * h) as nat, f, g);
}

/// The moments `m` at pixel `p` are the blurred images and their blurred products.
pub open spec fn moments_at(
    val: spec_fn(Single) -> real,
    k: Seq<Single>,
    w: int,
    n: nat,
    x: Seq<Single>,
    y: Seq<Single>,
    p: int,
    m: Moments,
) -> bool {
    &&& val(m.mx) == blur_of(val, k, w, n, |q: int| val(x[q]), p)
    &&& val(m.my) == blur_of(val, k, w, n, |q: int| val(y[q]), p)
    &&& val(m.xx) == blur_of(val, k, w, n, |q: int| val(x[q]) * val(x[q]), p)
    &&& val(m.yy) == blur_of(val, k, w, n, |q: int| val(y[q]) * val(y[q]), p)
    &&& val(m.xy) == blur_of(val, k, w, n, |q: int| val(x[q]) * val(y[q]), p)
}

/// The slope `s` at pixel `p` holds that pixel and the blurred derivatives of all pixels.
pub open spec fn slope_at(
    val: spec_fn(Single) -> real,
    k: Seq<Single>,
    w: int,
    n: nat,
    x: Seq<Single>,
    y: Seq<Single>,
    terms: Seq<Terms>,
    p: int,
    s: Slope,
) -> bool {
    &&& val(s.p) == blur_of(val, k, w, n, |q: int| val(terms[q].p), p)
    &&& val(s.q) == blur_of(val, k, w, n, |q: int| val(terms[q].q), p)
    &&& val(s.r) == blur_of(val, k, w, n, |q: int| val(terms[q].r), p)
    &&& val(s.q_mu) == blur_of(val, k, w, n, |q: int| val(terms[q].q_mu), p)
    &&& val(s.r_mu) == blur_of(val, k, w, n, |q: int| val(terms[q].r_mu), p)
    &&& s.x == x[p]
    &&& s.y == y[p]
}

/// The similarity of two images is the sum, over every pixel, of what the kernel `terms` finds
/// in the blurred moments there; its gradient at a pixel is what `slope` makes of that pixel and
/// of the derivatives of all pixels, blurred.
pub open spec fn similarity_of<
    E: Fn(Moments) -> Terms,
    D: Fn(Slope) -> Single,
>(
    terms: E,
    slope: D,
    val: spec_fn(Single) -> real,
    k: Seq<Single>,
    w: int,
    n: nat,
    x: Seq<Single>,
    y: Seq<Single>,
    sum: Single,
    grad: Seq<Single>,
    ms: Seq<Moments>,
    ts: Seq<Terms>,
    ss: Seq<Slope>,
) -> bool {
    &&& forall|p: int| 0 <= p < n ==> moments_at(val, k, w, n, x, y, p, #[trigger] ms[p])
    &&& forall|p: int| 0 <= p < n ==> call_ensures(terms, (ms[p],), #[trigger] ts[p])
    &&& forall|p: int| 0 <= p < n ==> slope_at(val, k, w, n, x, y, ts, p, #[trigger] ss[p])
    &&& forall|p: int| 0 <= p < n ==> call_ensures(slope, (ss[p],), #[trigger] grad[p])
    &&& val(sum) == total(n, |p: int| val(ts[p].ssim))
}

/// The similarity and its gradient look at all pixels of both images.
pub proof fn similarity_weighs_all_pixels<
    M: Fn(Single, Single, Single) -> Single,
    T: Fn(Single, Single) -> Single,
    E: Fn(Moments) -> Terms,
    S: Fn(Single, Single) -> Single,
    D: Fn(Slope) -> Single,
>(
    mac: M,
    times: T,
    terms: E,
    plus: S,
    slope: D,
    val: spec_fn(Single) -> real,
    k: Seq<Single>,
    w: int,
    h: int,
    x: Seq<Single>,
    y: Seq<Single>,
    sum: Single,
    grad: Seq<Single>,
) -> (r: (Seq<Moments>, Seq<Terms>, Seq<Slope>))
    requires
        exact(mac, val),
        multiplies(times, val),
        adds(plus, val),
        0 <= w,
        0 <= h,
        x.len() == w * h,
        y.len() == w * h,
        ssim_outcome(mac, times, terms, plus, slope, k, w, h, x, y, sum, grad),
    ensures
        grad.len() == w * h,
        similarity_of(
            terms,
            slope,
            val,
            k,
            w,
            (w * h) as nat,
            x,
            y,
            sum,
            grad,
            r.0,
            r.1,
            r.2,
        ),
{
    let n = (w * h) as nat;
    let m = choose|m: SsimMaps|
        {
            &&& #[trigger] moments_mapped(mac, times, k, w, h, x, y, m)
            &&& terms_mapped(terms, w * h, m)
            &&& derivatives_mapped(mac, k, w, h, m)
            &&& reaches(
                ssim_step(plus, m.terms),
                upto((w * h) as nat),
                Single { bits: ZERO },
                sum,
            )
            &&& grad.len() == w * h
            &&& forall|i: int|
                0 <= i < w * h ==> call_ensures(slope, (m.slope(x, y, i),), #[trigger] grad[i])
        };
    let ts = m.terms;
    let ms = Seq::new(n, |p: int| m.moments(p));
    let ss = Seq::new(n, |p: int| m.slope(x, y, p));
    assert forall|q: int| 0 <= q < n implies val(#[trigger] m.xx[q]) == val(x[q]) * val(x[q]) by {}
    assert forall|q: int| 0 <= q < n implies val(#[trigger] m.yy[q]) == val(y[q]) * val(y[q]) by {}
    assert forall|q: int| 0 <= q < n implies val(#[trigger] m.xy[q]) == val(x[q]) * val(y[q]) by {}
    assert forall|p: int| 0 <= p < n implies moments_at(val, k, w, n, x, y, p, #[trigger] ms[p]) by {
        lemma_blur_of(mac, val, k, w, h, x, m.mu_x, |q: int| val(x[q]), p);
        lemma_blur_of(mac, val, k, w, h, y, m.mu_y, |q: int| val(y[q]), p);
        lemma_blur_of(mac, val, k, w, h, m.xx, m.mu_xx, |q: int| val(x[q]) * val(x[q]), p);
        lemma_blur_of(mac, val, k, w, h, m.yy, m.mu_yy, |q: int| val(y[q]) * val(y[q]), p);
        lemma_blur_of(mac, val, k, w, h, m.xy, m.mu_xy, |q: int| val(x[q]) * val(y[q]), p);
    }
    assert forall|p: int| 0 <= p < n implies slope_at(val, k, w, n, x, y, ts, p, #[trigger] ss[p]) by {
        let a = ts.map_values(|t: Terms| t.p);
        let b = ts.map_values(|t: Terms| t.q);
        let c = ts.map_values(|t: Terms| t.r);
        let d = ts.map_values(|t: Terms| t.q_mu);
        let e = ts.map_values(|t: Terms| t.r_mu);
        lemma_blur_of(mac, val, k, w, h, a, m.p, |q: int| val(ts[q].p), p);
        lemma_blur_of(mac, val, k, w, h, b, m.q, |q: int| val(ts[q].q), p);
        lemma_blur_of(mac, val, k, w, h, c, m.r, |q: int| val(ts[q].r), p);
        lemma_blur_of(mac, val, k, w, h, d, m.q_mu, |q: int| val(ts[q].q_mu), p);
        lemma_blur_of(mac, val, k, w, h, e, m.r_mu, |q: int| val(ts[q].r_mu), p);
    }
    assert forall|p: int| 0 <= p < n implies call_ensures(terms, (ms[p],), #[trigger] ts[p]) by {}
    assert forall|p: int| 0 <= p < n implies call_ensures(slope, (ss[p],), #[trigger] grad[p]) by {}
    lemma_fold_sums(
        ssim_step(plus, ts),
        n,
        Single { bits: ZERO },
        sum,
        val,
        |p: int| val(ts[p].ssim),
    );
    (ms, ts, ss)
}

/// How the similarity at a pixel with the moments `m` follows a pixel of the first image that
/// has the value `x`, and `y` in the second: by `t.p` through the mean, by `t.q` through the
/// covariance and by `t.r` through the variance.
pub open spec fn pull(val: spec_fn(Single) -> real, m: Moments, t: Terms, x: real, y: real) -> real {
    val(t.p) + val(t.q) * (y - val(m.my)) + 2real * (val(t.r) * (x - val(m.mx)))
}

proof fn lemma_spread(g: real, d: real, p: real, q: real, r: real, s: real)
    ensures
        g * (d + (p - q) + 2real * (r - s)) == g * d + g * p - g * q + 2real * (g * r) - 2real * (g
            * s),
{
    let (u, v) = (p - q, r - s);
    assert(g * (d + u + 2real * v) == g * d + g * u + 2real * (g * v)) by (nonlinear_arith);
    assert(g * (p - q) == g * p - g * q) by (nonlinear_arith);
    assert(g * (r - s) == g * r - g * s) by (nonlinear_arith);
}

proof fn lemma_pull(g: real, d: real, q: real, r: real, a: real, b: real, mx: real, my: real)
    ensures
        g * d + b * (g * q) + (-1real) * (g * (q * my)) + (2real * a) * (g * r) + (-2real) * (g * (r
            * mx)) == g * (d + q * (b - my) + 2real * (r * (a - mx))),
{
    assert(q * (b - my) == q * b - q * my) by (nonlinear_arith);
    assert(r * (a - mx) == r * a - r * mx) by (nonlinear_arith);
    lemma_spread(g, d, q * b, q * my, r * a, r * mx);
    assert(g * (q * b) == b * (g * q)) by (nonlinear_arith);
    assert((2real * a) * (g * r) == 2real * (g * (r * a))) by (nonlinear_arith);
}

/// The gradient of the similarity at pixel `j` is the sum, over all pixels `p`, of how the
/// similarity at `p` follows pixel `j`, weighted as `j` counts in the blur at `p`.
pub proof fn similarity_gradient_is_the_derivative<
    E: Fn(Moments) -> Terms,
    D: Fn(Slope) -> Single,
>(
    terms: E,
    slope: D,
    val: spec_fn(Single) -> real,
    k: Seq<Single>,
    w: int,
    n: nat,
    x: Seq<Single>,
    y: Seq<Single>,
    sum: Single,
    grad: Seq<Single>,
    ms: Seq<Moments>,
    ts: Seq<Terms>,
    ss: Seq<Slope>,
    j: int,
)
    requires
        similarity_of(terms, slope, val, k, w, n, x, y, sum, grad, ms, ts, ss),
        forall|m: Moments, t: Terms| #[trigger]
            call_ensures(terms, (m,), t) ==> val(t.q_mu) == val(t.q) * val(m.my) && val(t.r_mu)
                == val(t.r) * val(m.mx),
        forall|s: Slope, d: Single| #[trigger]
            call_ensures(slope, (s,), d) ==> val(d) == val(s.p) + val(s.y) * val(s.q) - val(s.q_mu)
                + 2real * (val(s.x) * val(s.r) - val(s.r_mu)),
        0 <= j < n,
    ensures
        val(grad[j]) == blur_of(
            val,
            k,
            w,
            n,
            |p: int| pull(val, ms[p], ts[p], val(x[j]), val(y[j])),
            j,
        ),
{
    let (a, b) = (val(x[j]), val(y[j]));
    let u = |p: int| pixel_weight(val, k, w, j, p);
    let fp = |p: int| u(p) * val(ts[p].p);
    let fq = |p: int| u(p) * val(ts[p].q);
    let fr = |p: int| u(p) * val(ts[p].r);
    let fqm = |p: int| u(p) * val(ts[p].q_mu);
    let frm = |p: int| u(p) * val(ts[p].r_mu);
    assert(slope_at(val, k, w, n, x, y, ts, j, ss[j]));
    lemma_total_same(n, fp, |p: int| pixel_weight(val, k, w, j, p) * (|q: int| val(ts[q].p))(p));
    lemma_total_same(n, fq, |p: int| pixel_weight(val, k, w, j, p) * (|q: int| val(ts[q].q))(p));
    lemma_total_same(n, fr, |p: int| pixel_weight(val, k, w, j, p) * (|q: int| val(ts[q].r))(p));
    lemma_total_same(
        n,
        fqm,
        |p: int| pixel_weight(val, k, w, j, p) * (|q: int| val(ts[q].q_mu))(p),
    );
    lemma_total_same(
        n,
        frm,
        |p: int| pixel_weight(val, k, w, j, p) * (|q: int| val(ts[q].r_mu))(p),
    );
    let s1 = |p: int| b * fq(p);
    let s2 = |p: int| (-1real) * fqm(p);
    let s3 = |p: int| (2real * a) * fr(p);
    let s4 = |p: int| (-2real) * frm(p);
    lemma_total_scaled(n, b, fq);
    lemma_total_scaled(n, -1real, fqm);
    lemma_total_scaled(n, 2real * a, fr);
    lemma_total_scaled(n, -2real, frm);
    let t1 = |p: int| fp(p) + s1(p);
    let t2 = |p: int| t1(p) + s2(p);
    let t3 = |p: int| t2(p) + s3(p);
    let t4 = |p: int| t3(p) + s4(p);
    lemma_total_plus(n, fp, s1);
    lemma_total_plus(n, t1, s2);
    lemma_total_plus(n, t2, s3);
    lemma_total_plus(n, t3, s4);
    let v = |p: int| pull(val, ms[p], ts[p], a, b);
    let f = |p: int| pixel_weight(val, k, w, j, p) * v(p);
    assert forall|p: int| 0 <= p < n implies #[trigger] t4(p) == f(p) by {
        assert(call_ensures(terms, (ms[p],), ts[p]));
        let (g, d, q, r) = (u(p), val(ts[p].p), val(ts[p].q), val(ts[p].r));
        let (mx, my) = (val(ms[p].mx), val(ms[p].my));
        lemma_pull(g, d, q, r, a, b, mx, my);
    }
    lemma_total_same(n, t4, f);
    let (tq, tr) = (total(n, fq), total(n, fr));
    assert((2real * a) * tr == 2real * (a * tr)) by (nonlinear_arith);
    assert(call_ensures(slope, (ss[j],), grad[j]));
}

/// The samples of channel `ch` of an image with `stride` channels.
pub open spec fn samples(v: Seq<Single>, stride: int, ch: int, n: nat) -> Seq<Single> {
    Seq::new(n, |p: int| v[stride * p + ch])
}

/// The loss weighs the sum of all absolute errors and the similarity of all three channels.  The
/// gradient of every sample is that of its absolute error and, by `c`, that of the similarity of
/// its own channel at its own pixel.
pub proof fn loss_and_gradient_have_both_terms<
    M: Fn(Single, Single, Single) -> Single,
    T: Fn(Single, Single) -> Single,
    E: Fn(Moments) -> Terms,
    S: Fn(Single, Single) -> Single,
    D: Fn(Slope) -> Single,
    F: Fn(Single, Single, Single) -> Single,
    G: Fn(Single, Single) -> Single,
    C: Fn(Single, Single) -> Single,
    O: Fn(Single, Single) -> Single,
>(
    mac: M,
    times: T,
    terms: E,
    plus: S,
    slope: D,
    miss: F,
    sign: G,
    correct: C,
    both: O,
    val: spec_fn(Single) -> real,
    sg: spec_fn(real, real) -> real,
    c: real,
    k: Seq<Single>,
    w: int,
    h: int,
    rendered: Seq<Single>,
    target: Seq<Single>,
    loss: Single,
    dl: Seq<Single>,
) -> (q: LossParts)
    requires
        reads_zero(val),
        adds(plus, val),
        forall|a: Single, r: Single, t: Single, b: Single| #[trigger]
            call_ensures(miss, (a, r, t), b) ==> val(b) == val(a) + abs(val(r) - val(t)),
        forall|r: Single, t: Single, d: Single| #[trigger]
            call_ensures(sign, (r, t), d) ==> val(d) == sg(val(r), val(t)),
        forall|a: Single, s: Single, d: Single| #[trigger]
            call_ensures(correct, (a, s), d) ==> val(d) == val(a) + c * val(s),
        0 <= w,
        0 <= h,
        loss_outcome(
            mac,
            times,
            terms,
            plus,
            slope,
            miss,
            sign,
            correct,
            both,
            k,
            w,
            h,
            rendered,
            target,
            loss,
            dl,
        ),
    ensures
        q.sums.len() == 3,
        q.grads.len() == 3,
        forall|ch: int|
            0 <= ch < 3 ==> ssim_outcome(
                mac,
                times,
                terms,
                plus,
                slope,
                k,
                w,
                h,
                samples(rendered, 3, ch, (w * h) as nat),
                samples(target, 4, ch, (w * h) as nat),
                #[trigger] q.sums[ch],
                q.grads[ch],
            ),
        val(q.l1) == total(
            (3 * (w * h)) as nat,
            |e: int| abs(val(rendered[e]) - val(target[4 * (e / 3) + e % 3])),
        ),
        val(q.ssim) == val(q.sums[0]) + val(q.sums[1]) + val(q.sums[2]),
        call_ensures(both, (q.l1, q.ssim), loss),
        dl.len() == 3 * (w * h),
        forall|p: int, ch: int|
            #![trigger dl[3 * p + ch]]
            0 <= p < w * h && 0 <= ch < 3 ==> val(dl[3 * p + ch]) == sg(
                val(rendered[3 * p + ch]),
                val(target[4 * p + ch]),
            ) + c * val(q.grads[ch][p]),
{
    let zero = Single { bits: ZERO };
    let n = (w * h) as nat;
    let q = choose|q: LossParts|
        {
            &&& #[trigger] channels_compared(
                mac,
                times,
                terms,
                plus,
                slope,
                k,
                w,
                h,
                rendered,
                target,
                q,
            )
            &&& reaches(miss_step(miss, rendered, target), upto((w * h * 3) as nat), zero, q.l1)
            &&& reaches(channel_step(plus, q.sums), upto(3), zero, q.ssim)
            &&& call_ensures(both, (q.l1, q.ssim), loss)
            &&& dl.len() == w * h * 3
            &&& forall|e: int|
                0 <= e < dl.len() ==> sample_slope(
                    sign,
                    correct,
                    rendered[e],
                    target_of(target, e),
                    q.grads[e % 3][e / 3],
                    #[trigger] dl[e],
                )
        };
    assert forall|ch: int| 0 <= ch < 3 implies ssim_outcome(
        mac,
        times,
        terms,
        plus,
        slope,
        k,
        w,
        h,
        samples(rendered, 3, ch, n),
        samples(target, 4, ch, n),
        #[trigger] q.sums[ch],
        q.grads[ch],
    ) by {
        assert(samples(rendered, 3, ch, n) =~= channel(rendered, 3, ch, w * h));
        assert(samples(target, 4, ch, n) =~= channel(target, 4, ch, w * h));
    }
    lemma_fold_sums(
        miss_step(miss, rendered, target),
        (3 * (w * h)) as nat,
        zero,
        q.l1,
        val,
        |e: int| abs(val(rendered[e]) - val(target[4 * (e / 3) + e % 3])),
    );
    let sums = |ch: int| val(q.sums[ch]);
    lemma_fold_sums(channel_step(plus, q.sums), 3, zero, q.ssim, val, sums);
    reveal_with_fuel(total, 4);
    assert(total(3, sums) == sums(0) + sums(1) + sums(2));
    assert forall|p: int, ch: int|
        #![trigger dl[3 * p + ch]]
        0 <= p < w * h && 0 <= ch < 3 implies val(dl[3 * p + ch]) == sg(
        val(rendered[3 * p + ch]),
        val(target[4 * p + ch]),
    ) + c * val(q.grads[ch][p]) by {
        let e = 3 * p + ch;
        assert(e / 3 == p && e % 3 == ch);
        assert(sample_slope(
            sign,
            correct,
            rendered[e],
            target_of(target, e),
            q.grads[e % 3][e / 3],
            dl[e],
        ));
    }
    q
}

} // verus!
