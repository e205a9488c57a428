//! The photometric loss, `(1 - lambda) * L1 + lambda * (1 - SSIM)`, and its gradient.
//!
//! The kernels are handed in.  For the structural similarity: `mac` multiplies and
//! accumulates, `times` multiplies, `terms` makes the similarity of a pixel and its partial
//! derivatives out of the blurred moments, `plus` adds to a running sum, and `slope` makes a
//! pixel's gradient out of the blurred derivatives.  For the loss: `miss` adds a sample's
//! absolute error, `sign` is its gradient, `correct` adds the similarity's gradient, and
//! `total` weighs the two sums.

use super::blur::{blur, blurred};
use crate::num::fold::{lemma_reaches_nothing, lemma_reaches_push, lemma_upto_push, reaches, upto};
use crate::num::single::{Single, ZERO};
use vstd::prelude::*;

verus! {

/// The pattern of `0.2`.
pub const DSSIM_WEIGHT: u32 = 0x3E4C_CCCD;

/// How the loss is weighted.
#[derive(Clone, Copy, Debug)]
pub struct LossConfig {
    /// The weight of the dissimilarity.
    pub lambda_dssim: Single,
}

impl Default for LossConfig {
    fn default() -> (r: LossConfig)
        ensures
            r.lambda_dssim == (Single { bits: DSSIM_WEIGHT }),
    {
        LossConfig { lambda_dssim: Single { bits: DSSIM_WEIGHT } }
    }
}

/// The blurred moments of two images at a pixel.
#[derive(Clone, Copy, Debug)]
pub struct Moments {
    pub mx: Single,
    pub my: Single,
    pub xx: Single,
    pub yy: Single,
    pub xy: Single,
}

/// The similarity at a pixel and its partial derivatives, ready to be blurred.
#[derive(Clone, Copy, Debug)]
pub struct Terms {
    pub ssim: Single,
    pub p: Single,
    pub q: Single,
    pub r: Single,
    pub q_mu: Single,
    pub r_mu: Single,
}

/// The blurred derivatives at a pixel, and the pixel itself in both images.
#[derive(Clone, Copy, Debug)]
pub struct Slope {
    pub p: Single,
    pub q: Single,
    pub r: Single,
    pub q_mu: Single,
    pub r_mu: Single,
    pub x: Single,
    pub y: Single,
}

/// `out` can hold the products of `a` and `b`, value by value.
pub open spec fn products<T: Fn(Single, Single) -> Single>(
    times: T,
    a: Seq<Single>,
    b: Seq<Single>,
    out: Seq<Single>,
) -> bool {
    &&& out.len() == a.len()
    &&& forall|i: int| 0 <= i < out.len() ==> call_ensures(times, (a[i], b[i]), #[trigger] out[i])
}

fn multiply<T: Fn(Single, Single) -> Single>(times: T, a: &[Single], b: &[Single]) -> (out: Vec<
    Single,
>)
    requires
        forall|x: Single, y: Single| call_requires(times, (x, y)),
        a.len() == b.len(),
    ensures
        products(times, a@, b@, out@),
{
    let mut out: Vec<Single> = Vec::new();
    for i in 0..a.len()
        invariant
            forall|x: Single, y: Single| call_requires(times, (x, y)),
            a.len() == b.len(),
            out.len() == i,
            forall|j: int| 0 <= j < i ==> call_ensures(times, (a[j], b[j]), #[trigger] out[j]),
    {
        out.push(times(a[i], b[i]));
    }
    out
}

/// What is computed on the way to the similarity of two images.
pub struct SsimMaps {
    pub mu_x: Seq<Single>,
    pub mu_y: Seq<Single>,
    pub xx: Seq<Single>,
    pub yy: Seq<Single>,
    pub xy: Seq<Single>,
    pub mu_xx: Seq<Single>,
    pub mu_yy: Seq<Single>,
    pub mu_xy: Seq<Single>,
    pub terms: Seq<Terms>,
    pub p: Seq<Single>,
    pub q: Seq<Single>,
    pub r: Seq<Single>,
    pub q_mu: Seq<Single>,
    pub r_mu: Seq<Single>,
}

impl SsimMaps {
    pub open spec fn moments(self, i: int) -> Moments {
        Moments {
            mx: self.mu_x[i],
            my: self.mu_y[i],
            xx: self.mu_xx[i],
            yy: self.mu_yy[i],
            xy: self.mu_xy[i],
        }
    }

    pub open spec fn slope(self, x: Seq<Single>, y: Seq<Single>, i: int) -> Slope {
        Slope {
            p: self.p[i],
            q: self.q[i],
            r: self.r[i],
            q_mu: self.q_mu[i],
            r_mu: self.r_mu[i],
            x: x[i],
            y: y[i],
        }
    }
}

/// The blurred moments of `x` and `y`.
pub open spec fn moments_mapped<
    M: Fn(Single, Single, Single) -> Single,
    T: Fn(Single, Single) -> Single,
>(
    mac: M,
    times: T,
    k: Seq<Single>,
    w: int,
    h: int,
    x: Seq<Single>,
    y: Seq<Single>,
    m: SsimMaps,
) -> bool {
    &&& blurred(mac, k, w, h, x, m.mu_x)
    &&& blurred(mac, k, w, h, y, m.mu_y)
    &&& products(times, x, x, m.xx)
    &&& products(times, y, y, m.yy)
    &&& products(times, x, y, m.xy)
    &&& blurred(mac, k, w, h, m.xx, m.mu_xx)
    &&& blurred(mac, k, w, h, m.yy, m.mu_yy)
    &&& blurred(mac, k, w, h, m.xy, m.mu_xy)
}

/// The terms of each pixel.
pub open spec fn terms_mapped<E: Fn(Moments) -> Terms>(terms: E, n: int, m: SsimMaps) -> bool {
    &&& m.terms.len() == n
    &&& forall|i: int|
        0 <= i < n ==> call_ensures(terms, (m.moments(i),), #[trigger] m.terms[i])
}

/// The blurred derivatives.
pub open spec fn derivatives_mapped<M: Fn(Single, Single, Single) -> Single>(
    mac: M,
    k: Seq<Single>,
    w: int,
    h: int,
    m: SsimMaps,
) -> bool {
    &&& blurred(mac, k, w, h, m.terms.map_values(|t: Terms| t.p), m.p)
    &&& blurred(mac, k, w, h, m.terms.map_values(|t: Terms| t.q), m.q)
    &&& blurred(mac, k, w, h, m.terms.map_values(|t: Terms| t.r), m.r)
    &&& blurred(mac, k, w, h, m.terms.map_values(|t: Terms| t.q_mu), m.q_mu)
    &&& blurred(mac, k, w, h, m.terms.map_values(|t: Terms| t.r_mu), m.r_mu)
}

/// One step of the sum over pixels.
pub open spec fn ssim_step<S: Fn(Single, Single) -> Single>(plus: S, terms: Seq<Terms>) -> spec_fn(
    Single,
    int,
    Single,
) -> bool {
    |a: Single, i: int, b: Single| call_ensures(plus, (a, terms[i].ssim), b)
}

/// `sum` and `grad` can be the sum of the similarity of `x` and `y` over all pixels, and its
/// gradient in `x`.
pub open spec fn ssim_outcome<
    M: Fn(Single, Single, Single) -> Single,
    T: Fn(Single, Single) -> Single,
    E: Fn(Moments) -> Terms,
    S: Fn(Single, Single) -> Single,
    D: Fn(Slope) -> Single,
>(
    mac: M,
    times: T,
    terms: E,
    plus: S,
    slope: D,
    k: Seq<Single>,
    w: int,
    h: int,
    x: Seq<Single>,
    y: Seq<Single>,
    sum: Single,
    grad: Seq<Single>,
) -> bool {
    exists|m: SsimMaps|
        {
            &&& #[trigger] moments_mapped(mac, times, k, w, h, x, y, m)
            &&& terms_mapped(terms, w * h, m)
            &&& derivatives_mapped(mac, k, w, h, m)
            &&& reaches(
                ssim_step(plus, m.terms),
                upto((w * h) as nat),
                Single { bits: ZERO },
                sum,
            )
            &&& grad.len() == w * h
            &&& forall|i: int|
                0 <= i < w * h ==> call_ensures(slope, (m.slope(x, y, i),), #[trigger] grad[i])
        }
}

/// The sum of the structural similarity of one channel over all pixels, and its gradient.
pub fn ssim_channel<
    M: Fn(Single, Single, Single) -> Single + Copy,
    T: Fn(Single, Single) -> Single + Copy,
    E: Fn(Moments) -> Terms,
    S: Fn(Single, Single) -> Single,
    D: Fn(Slope) -> Single,
>(
    mac: M,
    times: T,
    terms: E,
    plus: S,
    slope: D,
    x: &[Single],
    y: &[Single],
    w: usize,
    h: usize,
    k: &[Single],
) -> (r: (Single, Vec<Single>))
    requires
        forall|a: Single, b: Single, c: Single| call_requires(mac, (a, b, c)),
        forall|a: Single, b: Single| call_requires(times, (a, b)),
        forall|m: Moments| call_requires(terms, (m,)),
        forall|a: Single, b: Single| call_requires(plus, (a, b)),
        forall|s: Slope| call_requires(slope, (s,)),
        x.len() == w * h,
        y.len() == w * h,
    ensures
        r.1.len() == w * h,
        ssim_outcome(
            mac,
            times,
            terms,
            plus,
            slope,
            k@,
            w as int,
            h as int,
            x@,
            y@,
            r.0,
            r.1@,
        ),
{
    let n = x.len();
    let mu_x = blur(mac, x, w, h, k);
    let mu_y = blur(mac, y, w, h, k);
    let xx = multiply(times, x, x);
    let yy = multiply(times, y, y);
    let xy = multiply(times, x, y);
    let mu_xx = blur(mac, &xx, w, h, k);
    let mu_yy = blur(mac, &yy, w, h, k);
    let mu_xy = blur(mac, &xy, w, h, k);
    let mut all: Ghost<Seq<Terms>> = Ghost(Seq::empty());
    let mut pmap: Vec<Single> = Vec::new();
    let mut qmap: Vec<Single> = Vec::new();
    let mut rmap: Vec<Single> = Vec::new();
    let mut qmu: Vec<Single> = Vec::new();
    let mut rmu: Vec<Single> = Vec::new();
    let zero = Single { bits: ZERO };
    let mut sum = zero;
    proof {
        lemma_reaches_nothing(ssim_step(plus, all@), zero, sum);
        assert(upto(0) =~= Seq::<int>::empty());
    }
    for i in 0..n
        invariant
            forall|m: Moments| call_requires(terms, (m,)),
            forall|a: Single, b: Single| call_requires(plus, (a, b)),
            zero == (Single { bits: ZERO }),
            mu_x.len() == n,
            mu_y.len() == n,
            mu_xx.len() == n,
            mu_yy.len() == n,
            mu_xy.len() == n,
            all@.len() == i,
            pmap@ == all@.map_values(|t: Terms| t.p),
            qmap@ == all@.map_values(|t: Terms| t.q),
            rmap@ == all@.map_values(|t: Terms| t.r),
            qmu@ == all@.map_values(|t: Terms| t.q_mu),
            rmu@ == all@.map_values(|t: Terms| t.r_mu),
            forall|j: int|
                0 <= j < i ==> call_ensures(
                    terms,
                    (
                        Moments {
                            mx: mu_x[j],
                            my: mu_y[j],
                            xx: mu_xx[j],
                            yy: mu_yy[j],
                            xy: mu_xy[j],
                        },
                    ),
                    #[trigger] all@[j],
                ),
            reaches(ssim_step(plus, all@), upto(i as nat), zero, sum),
    {
        let ghost before = all@;
        let ghost sum0 = sum;
        let t = terms(
            Moments { mx: mu_x[i], my: mu_y[i], xx: mu_xx[i], yy: mu_yy[i], xy: mu_xy[i] },
        );
        sum = plus(sum, t.ssim);
        pmap.push(t.p);
        qmap.push(t.q);
        rmap.push(t.r);
        qmu.push(t.q_mu);
        rmu.push(t.r_mu);
        proof {
            all@ = before.push(t);
            assert(pmap@ =~= all@.map_values(|t: Terms| t.p));
            assert(qmap@ =~= all@.map_values(|t: Terms| t.q));
            assert(rmap@ =~= all@.map_values(|t: Terms| t.r));
            assert(qmu@ =~= all@.map_values(|t: Terms| t.q_mu));
            assert(rmu@ =~= all@.map_values(|t: Terms| t.r_mu));
            lemma_longer(plus, before, t, i as nat, zero, sum0);
            let step = ssim_step(plus, all@);
            assert(step(sum0, i as int, sum));
            lemma_reaches_push(step, upto(i as nat), zero, sum0, i as int, sum);
            lemma_upto_push(i as nat);
        }
    }
    let bp = blur(mac, &pmap, w, h, k);
    let bq = blur(mac, &qmap, w, h, k);
    let br = blur(mac, &rmap, w, h, k);
    let bqmu = blur(mac, &qmu, w, h, k);
    let brmu = blur(mac, &rmu, w, h, k);
    let mut grad: Vec<Single> = Vec::new();
    let ghost m = SsimMaps {
        mu_x: mu_x@,
        mu_y: mu_y@,
        xx: xx@,
        yy: yy@,
        xy: xy@,
        mu_xx: mu_xx@,
        mu_yy: mu_yy@,
        mu_xy: mu_xy@,
        terms: all@,
        p: bp@,
        q: bq@,
        r: br@,
        q_mu: bqmu@,
        r_mu: brmu@,
    };
    for i in 0..n
        invariant
            forall|s: Slope| call_requires(slope, (s,)),
            bp.len() == n,
            bq.len() == n,
            br.len() == n,
            bqmu.len() == n,
            brmu.len() == n,
            x.len() == n,
            y.len() == n,
            m.p == bp@,
            m.q == bq@,
            m.r == br@,
            m.q_mu == bqmu@,
            m.r_mu == brmu@,
            grad.len() == i,
            forall|j: int|
                0 <= j < i ==> call_ensures(slope, (m.slope(x@, y@, j),), #[trigger] grad[j]),
    {
        let g = slope(
            Slope {
                p: bp[i],
                q: bq[i],
                r: br[i],
                q_mu: bqmu[i],
                r_mu: brmu[i],
                x: x[i],
                y: y[i],
            },
        );
        grad.push(g);
    }
    proof {
        assert forall|i: int| 0 <= i < n implies call_ensures(
            terms,
            (m.moments(i),),
            #[trigger] m.terms[i],
        ) by {
            assert(call_ensures(
                terms,
                (
                    Moments {
                        mx: mu_x[i],
                        my: mu_y[i],
                        xx: mu_xx[i],
                        yy: mu_yy[i],
                        xy: mu_xy[i],
                    },
                ),
                all@[i],
            ));
        }
        assert(moments_mapped(mac, times, k@, w as int, h as int, x@, y@, m));
        assert(terms_mapped(terms, w * h, m));
        assert(derivatives_mapped(mac, k@, w as int, h as int, m));
    }
    (sum, grad)
}

/// The sum over the first `n` pixels does not look at later terms.
proof fn lemma_longer<S: Fn(Single, Single) -> Single>(
    plus: S,
    terms: Seq<Terms>,
    t: Terms,
    n: nat,
    a: Single,
    b: Single,
)
    requires
        n <= terms.len(),
        reaches(ssim_step(plus, terms), upto(n), a, b),
    ensures
        reaches(ssim_step(plus, terms.push(t)), upto(n), a, b),
    decreases n,
{
    let old_step = ssim_step(plus, terms);
    let step = ssim_step(plus, terms.push(t));
    if n == 0 {
        assert(upto(0) =~= Seq::<int>::empty());
        lemma_reaches_nothing(old_step, a, b);
        lemma_reaches_nothing(step, a, b);
    } else {
        let m = crate::num::fold::lemma_reaches_last(old_step, upto(n), a, b);
        let i = (n - 1) as nat;
        assert(upto(n).drop_last() =~= upto(i));
        assert(upto(n).last() == i);
        lemma_longer(plus, terms, t, i, a, m);
        assert(terms.push(t)[i as int] == terms[i as int]);
        lemma_reaches_push(step, upto(i), a, m, i as int, b);
        lemma_upto_push(i);
    }
}

// ── the loss ────────────────────────────────────────────────────────────────────────────

/// Channel `ch` of an image of `n` pixels with `stride` channels.
pub open spec fn channel(v: Seq<Single>, stride: int, ch: int, n: int) -> Seq<Single> {
    Seq::new(n as nat, |p: int| v[p * stride + ch])
}

fn split(v: &[Single], stride: usize, ch: usize, n: usize) -> (r: Vec<Single>)
    requires
        ch < stride,
        n * stride <= v.len(),
    ensures
        r@ == channel(v@, stride as int, ch as int, n as int),
{
    let mut r: Vec<Single> = Vec::new();
    for p in 0..n
        invariant
            ch < stride,
            n * stride <= v.len(),
            r@ == channel(v@, stride as int, ch as int, p as int),
    {
        assert(p * stride + stride <= n * stride) by (nonlinear_arith)
            requires
                p < n,
                0 <= stride,
        ;
        assert(0 <= p * stride) by (nonlinear_arith)
            requires
                0 <= p,
                0 <= stride,
        ;
        r.push(v[p * stride + ch]);
        assert(r@ =~= channel(v@, stride as int, ch as int, p + 1));
    }
    r
}

/// The target's value for sample `e` of the rendered image, which has no fourth channel.
pub open spec fn target_of(target: Seq<Single>, e: int) -> Single {
    target[e / 3 * 4 + e % 3]
}

/// One step of the sum of absolute errors.
pub open spec fn miss_step<F: Fn(Single, Single, Single) -> Single>(
    miss: F,
    rendered: Seq<Single>,
    target: Seq<Single>,
) -> spec_fn(Single, int, Single) -> bool {
    |a: Single, e: int, b: Single|
        call_ensures(miss, (a, rendered[e], target_of(target, e)), b)
}

/// What is computed on the way to the loss.
pub struct LossParts {
    /// The sum of absolute errors.
    pub l1: Single,
    /// The sum of the similarity of each channel, and of all.
    pub sums: Seq<Single>,
    pub ssim: Single,
    /// The gradient of the similarity of each channel.
    pub grads: Seq<Seq<Single>>,
}

/// The similarity of each of the three channels.
pub open spec fn channels_compared<
    M: Fn(Single, Single, Single) -> Single,
    T: Fn(Single, Single) -> Single,
    E: Fn(Moments) -> Terms,
    S: Fn(Single, Single) -> Single,
    D: Fn(Slope) -> Single,
>(
    mac: M,
    times: T,
    terms: E,
    plus: S,
    slope: D,
    k: Seq<Single>,
    w: int,
    h: int,
    rendered: Seq<Single>,
    target: Seq<Single>,
    q: LossParts,
) -> bool {
    &&& q.sums.len() == 3
    &&& q.grads.len() == 3
    &&& forall|ch: int|
        0 <= ch < 3 ==> ssim_outcome(
            mac,
            times,
            terms,
            plus,
            slope,
            k,
            w,
            h,
            channel(rendered, 3, ch, w * h),
            channel(target, 4, ch, w * h),
            #[trigger] q.sums[ch],
            q.grads[ch],
        )
}

/// One step of the sum over channels.
pub open spec fn channel_step<S: Fn(Single, Single) -> Single>(
    plus: S,
    sums: Seq<Single>,
) -> spec_fn(Single, int, Single) -> bool {
    |a: Single, ch: int, b: Single| call_ensures(plus, (a, sums[ch]), b)
}

/// `d` can be the gradient of a sample: that of its absolute error, and then that of the
/// similarity.
pub open spec fn sample_slope<
    G: Fn(Single, Single) -> Single,
    C: Fn(Single, Single) -> Single,
>(sign: G, correct: C, r: Single, t: Single, ssim: Single, d: Single) -> bool {
    exists|d0: Single| #[trigger]
        call_ensures(sign, (r, t), d0) && call_ensures(correct, (d0, ssim), d)
}

/// `loss` and `dl` can be the loss of the rendered image and its gradient.
pub open spec fn loss_outcome<
    M: Fn(Single, Single, Single) -> Single,
    T: Fn(Single, Single) -> Single,
    E: Fn(Moments) -> Terms,
    S: Fn(Single, Single) -> Single,
    D: Fn(Slope) -> Single,
    F: Fn(Single, Single, Single) -> Single,
    G: Fn(Single, Single) -> Single,
    C: Fn(Single, Single) -> Single,
    O: Fn(Single, Single) -> Single,
>(
    mac: M,
    times: T,
    terms: E,
    plus: S,
    slope: D,
    miss: F,
    sign: G,
    correct: C,
    total: O,
    k: Seq<Single>,
    w: int,
    h: int,
    rendered: Seq<Single>,
    target: Seq<Single>,
    loss: Single,
    dl: Seq<Single>,
) -> bool {
    let zero = Single { bits: ZERO };
    exists|q: LossParts|
        {
            &&& #[trigger] channels_compared(
                mac,
                times,
                terms,
                plus,
                slope,
                k,
                w,
                h,
                rendered,
                target,
                q,
            )
            &&& reaches(miss_step(miss, rendered, target), upto((w * h * 3) as nat), zero, q.l1)
            &&& reaches(channel_step(plus, q.sums), upto(3), zero, q.ssim)
            &&& call_ensures(total, (q.l1, q.ssim), loss)
            &&& dl.len() == w * h * 3
            &&& forall|e: int|
                0 <= e < dl.len() ==> sample_slope(
                    sign,
                    correct,
                    rendered[e],
                    target_of(target, e),
                    q.grads[e % 3][e / 3],
                    #[trigger] dl[e],
                )
        }
}

/// The loss of a rendered image (three channels) against a target (four channels, the fourth
/// unused), and its gradient in each sample.
pub fn photometric_loss_grad<
    M: Fn(Single, Single, Single) -> Single + Copy,
    T: Fn(Single, Single) -> Single + Copy,
    E: Fn(Moments) -> Terms + Copy,
    S: Fn(Single, Single) -> Single + Copy,
    D: Fn(Slope) -> Single + Copy,
    F: Fn(Single, Single, Single) -> Single,
    G: Fn(Single, Single) -> Single,
    C: Fn(Single, Single) -> Single,
    O: Fn(Single, Single) -> Single,
>(
    mac: M,
    times: T,
    terms: E,
    plus: S,
    slope: D,
    miss: F,
    sign: G,
    correct: C,
    total: O,
    kernel: &[Single],
    rendered: &[Single],
    target_rgba: &[Single],
    w: usize,
    h: usize,
) -> (r: (Single, Vec<Single>))
    requires
        forall|a: Single, b: Single, c: Single| call_requires(mac, (a, b, c)),
        forall|a: Single, b: Single| call_requires(times, (a, b)),
        forall|m: Moments| call_requires(terms, (m,)),
        forall|a: Single, b: Single| call_requires(plus, (a, b)),
        forall|s: Slope| call_requires(slope, (s,)),
        forall|a: Single, b: Single, c: Single| call_requires(miss, (a, b, c)),
        forall|a: Single, b: Single| call_requires(sign, (a, b)),
        forall|a: Single, b: Single| call_requires(correct, (a, b)),
        forall|a: Single, b: Single| call_requires(total, (a, b)),
        w * h * 3 <= rendered.len(),
        w * h * 4 <= target_rgba.len(),
    ensures
        r.1.len() == w * h * 3,
        loss_outcome(
            mac,
            times,
            terms,
            plus,
            slope,
            miss,
            sign,
            correct,
            total,
            kernel@,
            w as int,
            h as int,
            rendered@,
            target_rgba@,
            r.0,
            r.1@,
        ),
{
    assert(w * h <= usize::MAX) by (nonlinear_arith)
        requires
            w * h * 3 <= usize::MAX,
            0 <= w,
            0 <= h,
    ;
    let n = w * h;
    let zero = Single { bits: ZERO };
    let mut l1 = zero;
    let mut first: Vec<Single> = Vec::new();
    let ghost misses = miss_step(miss, rendered@, target_rgba@);
    proof {
        lemma_reaches_nothing(misses, zero, l1);
        assert(upto(0) =~= Seq::<int>::empty());
    }
    for e in 0..n * 3
        invariant
            forall|a: Single, b: Single, c: Single| call_requires(miss, (a, b, c)),
            forall|a: Single, b: Single| call_requires(sign, (a, b)),
            n * 3 <= rendered.len(),
            n * 4 <= target_rgba.len(),
            zero == (Single { bits: ZERO }),
            misses == miss_step(miss, rendered@, target_rgba@),
            reaches(misses, upto(e as nat), zero, l1),
            first.len() == e,
            forall|j: int|
                0 <= j < e ==> call_ensures(
                    sign,
                    (rendered[j], target_of(target_rgba@, j)),
                    #[trigger] first[j],
                ),
    {
        let ghost l0 = l1;
        let r = rendered[e];
        let t = target_rgba[e / 3 * 4 + e % 3];
        l1 = miss(l1, r, t);
        first.push(sign(r, t));
        proof {
            assert(misses(l0, e as int, l1));
            lemma_reaches_push(misses, upto(e as nat), zero, l0, e as int, l1);
            lemma_upto_push(e as nat);
        }
    }
    let x0 = split(rendered, 3, 0, n);
    let x1 = split(rendered, 3, 1, n);
    let x2 = split(rendered, 3, 2, n);
    let y0 = split(target_rgba, 4, 0, n);
    let y1 = split(target_rgba, 4, 1, n);
    let y2 = split(target_rgba, 4, 2, n);
    let (s0, g0) = ssim_channel(mac, times, terms, plus, slope, &x0, &y0, w, h, kernel);
    let (s1, g1) = ssim_channel(mac, times, terms, plus, slope, &x1, &y1, w, h, kernel);
    let (s2, g2) = ssim_channel(mac, times, terms, plus, slope, &x2, &y2, w, h, kernel);
    let a0 = plus(zero, s0);
    let a1 = plus(a0, s1);
    let ssim = plus(a1, s2);
    let ghost q = LossParts { l1, sums: seq![s0, s1, s2], ssim, grads: seq![g0@, g1@, g2@] };
    proof {
        let step = channel_step(plus, q.sums);
        lemma_reaches_nothing(step, zero, zero);
        assert(upto(0) =~= Seq::<int>::empty());
        assert(step(zero, 0, a0));
        lemma_reaches_push(step, upto(0), zero, zero, 0, a0);
        lemma_upto_push(0);
        assert(step(a0, 1, a1));
        lemma_reaches_push(step, upto(1), zero, a0, 1, a1);
        lemma_upto_push(1);
        assert(step(a1, 2, ssim));
        lemma_reaches_push(step, upto(2), zero, a1, 2, ssim);
        lemma_upto_push(2);
        assert(channels_compared(
            mac,
            times,
            terms,
            plus,
            slope,
            kernel@,
            w as int,
            h as int,
            rendered@,
            target_rgba@,
            q,
        ));
    }
    let mut dl: Vec<Single> = Vec::new();
    for e in 0..n * 3
        invariant
            forall|a: Single, b: Single| call_requires(correct, (a, b)),
            n * 3 <= usize::MAX,
            first.len() == n * 3,
            g0.len() == n,
            g1.len() == n,
            g2.len() == n,
            q.grads == seq![g0@, g1@, g2@],
            forall|j: int|
                0 <= j < n * 3 ==> call_ensures(
                    sign,
                    (rendered[j], target_of(target_rgba@, j)),
                    #[trigger] first[j],
                ),
            dl.len() == e,
            forall|j: int|
                0 <= j < e ==> sample_slope(
                    sign,
                    correct,
                    rendered[j],
                    target_of(target_rgba@, j),
                    q.grads[j % 3][j / 3],
                    #[trigger] dl[j],
                ),
    {
        let p = e / 3;
        let g = if e % 3 == 0 {
            g0[p]
        } else if e % 3 == 1 {
            g1[p]
        } else {
            g2[p]
        };
        assert(g == q.grads[e as int % 3][e as int / 3]);
        let d = correct(first[e], g);
        assert(call_ensures(
            sign,
            (rendered[e as int], target_of(target_rgba@, e as int)),
            first[e as int],
        ));
        dl.push(d);
        assert(sample_slope(
            sign,
            correct,
            rendered[e as int],
            target_of(target_rgba@, e as int),
            g,
            d,
        ));
    }
    let loss = total(l1, ssim);
    (loss, dl)
}

// ── a loss to train with ────────────────────────────────────────────────────────────────

/// What judges a rendered image.
pub trait ImageLoss {
    /// It can judge images of `w` by `h` pixels.
    spec fn judges(&self, w: int, h: int) -> bool;

    /// `loss` and `dl` can be the loss of the image and the gradient of its samples.
    spec fn gives(
        &self,
        w: int,
        h: int,
        rendered: Seq<Single>,
        loss: Single,
        dl: Seq<Single>,
    ) -> bool;

    /// The loss of an image of three channels, and the gradient of its samples.
    fn judge(&self, rendered: &[Single], w: usize, h: usize) -> (r: (Single, Vec<Single>))
        requires
            self.judges(w as int, h as int),
            rendered.len() == w * h * 3,
        ensures
            r.1.len() == w * h * 3,
            self.gives(w as int, h as int, rendered@, r.0, r.1@),
    ;
}

/// The photometric loss against a target image, with its kernels and its window.
pub struct Photometric<'a, M, T, E, S, D, F, G, C, O> {
    pub mac: M,
    pub times: T,
    pub terms: E,
    pub plus: S,
    pub slope: D,
    pub miss: F,
    pub sign: G,
    pub correct: C,
    pub total: O,
    pub window: &'a [Single],
    pub target_rgba: &'a [Single],
}

impl<
    'a,
    M: Fn(Single, Single, Single) -> Single + Copy,
    T: Fn(Single, Single) -> Single + Copy,
    E: Fn(Moments) -> Terms + Copy,
    S: Fn(Single, Single) -> Single + Copy,
    D: Fn(Slope) -> Single + Copy,
    F: Fn(Single, Single, Single) -> Single + Copy,
    G: Fn(Single, Single) -> Single + Copy,
    C: Fn(Single, Single) -> Single + Copy,
    O: Fn(Single, Single) -> Single + Copy,
> ImageLoss for Photometric<'a, M, T, E, S, D, F, G, C, O> {
    open spec fn judges(&self, w: int, h: int) -> bool {
        &&& forall|a: Single, b: Single, c: Single| call_requires(self.mac, (a, b, c))
        &&& forall|a: Single, b: Single| call_requires(self.times, (a, b))
        &&& forall|m: Moments| call_requires(self.terms, (m,))
        &&& forall|a: Single, b: Single| call_requires(self.plus, (a, b))
        &&& forall|s: Slope| call_requires(self.slope, (s,))
        &&& forall|a: Single, b: Single, c: Single| call_requires(self.miss, (a, b, c))
        &&& forall|a: Single, b: Single| call_requires(self.sign, (a, b))
        &&& forall|a: Single, b: Single| call_requires(self.correct, (a, b))
        &&& forall|a: Single, b: Single| call_requires(self.total, (a, b))
        &&& w * h * 4 <= self.target_rgba@.len()
    }

    open spec fn gives(
        &self,
        w: int,
        h: int,
        rendered: Seq<Single>,
        loss: Single,
        dl: Seq<Single>,
    ) -> bool {
        loss_outcome(
            self.mac,
            self.times,
            self.terms,
            self.plus,
            self.slope,
            self.miss,
            self.sign,
            self.correct,
            self.total,
            self.window@,
            w,
            h,
            rendered,
            self.target_rgba@,
            loss,
            dl,
        )
    }

    fn judge(&self, rendered: &[Single], w: usize, h: usize) -> (r: (Single, Vec<Single>)) {
        photometric_loss_grad(
            self.mac,
            self.times,
            self.terms,
            self.plus,
            self.slope,
            self.miss,
            self.sign,
            self.correct,
            self.total,
            self.window,
            rendered,
            self.target_rgba,
            w,
            h,
        )
    }
}

} // verus!
