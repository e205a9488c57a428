//! From the gradient of a splat to that of its Gaussian.
//!
//! The kernels are handed in: `logit` takes an opacity's gradient back through the sigmoid,
//! `times` multiplies, `invert` takes the gradient of the inverse covariance back to the
//! covariance, `shape` that one on to the log scales and the rotation, and `place` it and the
//! gradient of the centre on the screen on to the position; `away` is how far the camera is,
//! `weigh` sums three products, `turn` takes the gradient of the basis back to the position
//! through the viewing direction, `both` adds two vectors, and `length` is that of a plane
//! vector.

use super::backward::SplatGradAccum;
use super::render::GaussianGrad;
use super::splat::Splat;
use crate::math::sh::{backprop_color, passed, sh_grads};
use crate::math::Gaussian3D;
use crate::num::single::{Single, ONE, ZERO};
use vstd::prelude::*;

verus! {

/// The pattern of `1e-8`: from a nearer camera there is no viewing direction.
pub const MIN_DISTANCE: u32 = 0x322B_CC77;

/// The gradient of the colour of a splat.
pub open spec fn color_grad(acc: SplatGradAccum) -> [Single; 3] {
    [acc.red, acc.green, acc.blue]
}

/// The gradient of the inverse covariance of a splat.
pub open spec fn conic_grad(acc: SplatGradAccum) -> [Single; 3] {
    [acc.conic_a, acc.conic_b, acc.conic_c]
}

/// What of the colour's gradient passes the clamp.
pub open spec fn masked_by(s: Splat, acc: SplatGradAccum, masked: [Single; 3]) -> bool {
    forall|ch: int|
        0 <= ch < 3 ==> #[trigger] masked[ch] == passed(s.raw_color[ch], color_grad(acc)[ch])
}

/// The three coefficients that belong to basis value `k`, one of each channel.
pub open spec fn coefficients(sh: [Single; 48], k: int) -> [Single; 3] {
    [sh[k], sh[16 + k], sh[32 + k]]
}

/// `d` can be the gradient of the basis: each value counts with its coefficient in every
/// channel.
pub open spec fn basis_grad<U: Fn([Single; 3], [Single; 3]) -> Single>(
    weigh: U,
    masked: [Single; 3],
    sh: [Single; 48],
    d: [Single; 16],
) -> bool {
    forall|k: int|
        0 <= k < 16 ==> call_ensures(weigh, (masked, coefficients(sh, k)), #[trigger] d[k])
}

/// `d` can be the gradient of the position: `d0`, and what the viewing direction adds, where
/// there is one.
pub open spec fn directed<
    A: Fn([Single; 3]) -> Single,
    U: Fn([Single; 3], [Single; 3]) -> Single,
    T: Fn([Single; 3], [Single; 16]) -> [Single; 3],
    B: Fn([Single; 3], [Single; 3]) -> [Single; 3],
>(
    away: A,
    weigh: U,
    turn: T,
    both: B,
    g: Gaussian3D<Single>,
    masked: [Single; 3],
    d0: [Single; 3],
    d: [Single; 3],
) -> bool {
    exists|far: Single| #[trigger]
        call_ensures(away, (g.position,), far) && if (Single { bits: MIN_DISTANCE }).below(far) {
            turned_by(weigh, turn, both, g, masked, d0, d)
        } else {
            d == d0
        }
}

/// `d` can be `d0` and what the viewing direction adds to it.
pub open spec fn turned_by<
    U: Fn([Single; 3], [Single; 3]) -> Single,
    T: Fn([Single; 3], [Single; 16]) -> [Single; 3],
    B: Fn([Single; 3], [Single; 3]) -> [Single; 3],
>(
    weigh: U,
    turn: T,
    both: B,
    g: Gaussian3D<Single>,
    masked: [Single; 3],
    d0: [Single; 3],
    d: [Single; 3],
) -> bool {
    exists|b: [Single; 16], e: [Single; 3]|
        {
            &&& #[trigger] basis_grad(weigh, masked, g.sh_coeffs, b)
            &&& #[trigger] call_ensures(turn, (g.position, b), e)
            &&& call_ensures(both, (d0, e), d)
        }
}

/// What is computed on the way to the gradient of a Gaussian: of the colour before it was
/// clamped, of the screen covariance, and of the position but for the viewing direction.
pub struct Parts {
    pub masked: [Single; 3],
    pub cov: [Single; 3],
    pub placed: [Single; 3],
}

/// `r` can be the gradient of the Gaussian `g`, computed by way of `p`.
pub open spec fn assembled<
    F: Fn(Single, Single) -> Single,
    M: Fn(Single, Single) -> Single,
    I: Fn([Single; 3], [Single; 3]) -> [Single; 3],
    S: Fn(&Gaussian3D<Single>, [Single; 3], [Single; 3]) -> ([Single; 3], [Single; 4]),
    P: Fn(&Gaussian3D<Single>, [Single; 3], [Single; 3], (Single, Single)) -> [Single; 3],
    A: Fn([Single; 3]) -> Single,
    U: Fn([Single; 3], [Single; 3]) -> Single,
    T: Fn([Single; 3], [Single; 16]) -> [Single; 3],
    B: Fn([Single; 3], [Single; 3]) -> [Single; 3],
    L: Fn(Single, Single) -> Single,
>(
    logit: F,
    times: M,
    invert: I,
    shape: S,
    place: P,
    away: A,
    weigh: U,
    turn: T,
    both: B,
    length: L,
    s: Splat,
    acc: SplatGradAccum,
    g: Gaussian3D<Single>,
    p: Parts,
    r: GaussianGrad,
) -> bool {
    &&& call_ensures(logit, (acc.opacity, s.opacity), r.d_opacity_logit)
    &&& masked_by(s, acc, p.masked)
    &&& sh_grads(times, p.masked, s.basis, r.d_sh)
    &&& call_ensures(invert, (conic_grad(acc), s.cov2d), p.cov)
    &&& call_ensures(shape, (&g, s.pcam, p.cov), (r.d_log_scale, r.d_rotation))
    &&& call_ensures(place, (&g, s.pcam, p.cov, (acc.sx, acc.sy)), p.placed)
    &&& directed(away, weigh, turn, both, g, p.masked, p.placed, r.d_position)
    &&& call_ensures(length, (acc.sx, acc.sy), r.screen_grad_norm)
}

/// The gradient of the basis.
fn weigh_basis<U: Fn([Single; 3], [Single; 3]) -> Single>(
    weigh: U,
    masked: [Single; 3],
    sh: &[Single; 48],
) -> (d: [Single; 16])
    requires
        forall|a: [Single; 3], b: [Single; 3]| call_requires(weigh, (a, b)),
    ensures
        basis_grad(weigh, masked, *sh, d),
{
    let zero = Single { bits: ZERO };
    let mut d: [Single; 16] = [
        zero, zero, zero, zero, zero, zero, zero, zero,
        zero, zero, zero, zero, zero, zero, zero, zero,
    ];
    for k in 0..16usize
        invariant
            forall|a: [Single; 3], b: [Single; 3]| call_requires(weigh, (a, b)),
            forall|j: int|
                0 <= j < k ==> call_ensures(weigh, (masked, coefficients(*sh, j)), #[trigger] d[j]),
    {
        let c = [sh[k], sh[16 + k], sh[32 + k]];
        assert(c =~= coefficients(*sh, k as int));
        let v = weigh(masked, c);
        d[k] = v;
    }
    d
}

/// The gradient of the Gaussian `g` that the splat `s` shows, from the gradient of the splat.
pub fn geometry_backprop<
    F: Fn(Single, Single) -> Single,
    M: Fn(Single, Single) -> Single,
    I: Fn([Single; 3], [Single; 3]) -> [Single; 3],
    S: Fn(&Gaussian3D<Single>, [Single; 3], [Single; 3]) -> ([Single; 3], [Single; 4]),
    P: Fn(&Gaussian3D<Single>, [Single; 3], [Single; 3], (Single, Single)) -> [Single; 3],
    A: Fn([Single; 3]) -> Single,
    U: Fn([Single; 3], [Single; 3]) -> Single,
    T: Fn([Single; 3], [Single; 16]) -> [Single; 3],
    B: Fn([Single; 3], [Single; 3]) -> [Single; 3],
    L: Fn(Single, Single) -> Single,
>(
    logit: F,
    times: M,
    invert: I,
    shape: S,
    place: P,
    away: A,
    weigh: U,
    turn: T,
    both: B,
    length: L,
    s: &Splat,
    acc: SplatGradAccum,
    g: &Gaussian3D<Single>,
) -> (r: GaussianGrad)
    requires
        forall|a: Single, b: Single| call_requires(logit, (a, b)),
        forall|a: Single, b: Single| call_requires(times, (a, b)),
        forall|a: [Single; 3], b: [Single; 3]| call_requires(invert, (a, b)),
        forall|g: &Gaussian3D<Single>, a: [Single; 3], b: [Single; 3]|
            call_requires(shape, (g, a, b)),
        forall|g: &Gaussian3D<Single>, a: [Single; 3], b: [Single; 3], c: (Single, Single)|
            call_requires(place, (g, a, b, c)),
        forall|a: [Single; 3]| call_requires(away, (a,)),
        forall|a: [Single; 3], b: [Single; 3]| call_requires(weigh, (a, b)),
        forall|a: [Single; 3], b: [Single; 16]| call_requires(turn, (a, b)),
        forall|a: [Single; 3], b: [Single; 3]| call_requires(both, (a, b)),
        forall|a: Single, b: Single| call_requires(length, (a, b)),
    ensures
        exists|p: Parts| #[trigger]
            assembled(
                logit,
                times,
                invert,
                shape,
                place,
                away,
                weigh,
                turn,
                both,
                length,
                *s,
                acc,
                *g,
                p,
                r,
            ),
{
    let d_opacity_logit = logit(acc.opacity, s.opacity);
    let color = [acc.red, acc.green, acc.blue];
    assert(color =~= color_grad(acc));
    let (masked, d_sh) = backprop_color(times, &s.raw_color, &color, &s.basis);
    let conic = [acc.conic_a, acc.conic_b, acc.conic_c];
    assert(conic =~= conic_grad(acc));
    let cov = invert(conic, s.cov2d);
    let (d_log_scale, d_rotation) = shape(g, s.pcam, cov);
    let placed = place(g, s.pcam, cov, (acc.sx, acc.sy));
    let far = away(g.position);
    let d_position = if (Single { bits: MIN_DISTANCE }).lt(far) {
        let b = weigh_basis(weigh, masked, &g.sh_coeffs);
        let e = turn(g.position, b);
        let d = both(placed, e);
        assert(turned_by(weigh, turn, both, *g, masked, placed, d));
        d
    } else {
        placed
    };
    let screen_grad_norm = length(acc.sx, acc.sy);
    let r = GaussianGrad {
        d_position,
        d_rotation,
        d_log_scale,
        d_opacity_logit,
        d_sh,
        screen_grad_norm,
    };
    proof {
        let p = Parts { masked, cov, placed };
        assert(directed(away, weigh, turn, both, *g, masked, placed, d_position));
        assert(assembled(
            logit,
            times,
            invert,
            shape,
            place,
            away,
            weigh,
            turn,
            both,
            length,
            *s,
            acc,
            *g,
            p,
            r,
        ));
    }
    r
}

/// A channel that the clamp cut off hands nothing on to its coefficients but what zero times a
/// basis value is.
pub proof fn cut_channels_are_masked(
    s: Splat,
    acc: SplatGradAccum,
    masked: [Single; 3],
    ch: int,
)
    requires
        masked_by(s, acc, masked),
        0 <= ch < 3,
        !((Single { bits: ZERO }).below(s.raw_color[ch]) && s.raw_color[ch].below(
            Single { bits: ONE },
        )),
    ensures
        masked[ch] == (Single { bits: ZERO }),
{
}

/// What takes the gradient of a splat back to its Gaussian.
pub trait Unprojection {
    /// It can be used.
    spec fn ready(&self) -> bool;

    /// `r` can be the gradient of the Gaussian `g` that the splat `s` shows.
    spec fn gives(&self, s: Splat, acc: SplatGradAccum, g: Gaussian3D<Single>, r: GaussianGrad)
        -> bool;

    /// The gradient of the Gaussian `g` that the splat `s` shows.
    fn take_back(&self, s: &Splat, acc: SplatGradAccum, g: &Gaussian3D<Single>) -> (r: GaussianGrad)
        requires
            self.ready(),
        ensures
            self.gives(*s, acc, *g, r),
    ;
}

/// The geometry of a view, as kernels.
pub struct View3D<F, M, I, S, P, A, U, T, B, L> {
    pub logit: F,
    pub times: M,
    pub invert: I,
    pub shape: S,
    pub place: P,
    pub away: A,
    pub weigh: U,
    pub turn: T,
    pub both: B,
    pub length: L,
}

impl<
    F: Fn(Single, Single) -> Single + Copy,
    M: Fn(Single, Single) -> Single + Copy,
    I: Fn([Single; 3], [Single; 3]) -> [Single; 3] + Copy,
    S: Fn(&Gaussian3D<Single>, [Single; 3], [Single; 3]) -> ([Single; 3], [Single; 4]) + Copy,
    P: Fn(&Gaussian3D<Single>, [Single; 3], [Single; 3], (Single, Single)) -> [Single; 3] + Copy,
    A: Fn([Single; 3]) -> Single + Copy,
    U: Fn([Single; 3], [Single; 3]) -> Single + Copy,
    T: Fn([Single; 3], [Single; 16]) -> [Single; 3] + Copy,
    B: Fn([Single; 3], [Single; 3]) -> [Single; 3] + Copy,
    L: Fn(Single, Single) -> Single + Copy,
> Unprojection for View3D<F, M, I, S, P, A, U, T, B, L> {
    open spec fn ready(&self) -> bool {
        &&& forall|a: Single, b: Single| call_requires(self.logit, (a, b))
        &&& forall|a: Single, b: Single| call_requires(self.times, (a, b))
        &&& forall|a: [Single; 3], b: [Single; 3]| call_requires(self.invert, (a, b))
        &&& forall|g: &Gaussian3D<Single>, a: [Single; 3], b: [Single; 3]|
            call_requires(self.shape, (g, a, b))
        &&& forall|g: &Gaussian3D<Single>, a: [Single; 3], b: [Single; 3], c: (Single, Single)|
            call_requires(self.place, (g, a, b, c))
        &&& forall|a: [Single; 3]| call_requires(self.away, (a,))
        &&& forall|a: [Single; 3], b: [Single; 3]| call_requires(self.weigh, (a, b))
        &&& forall|a: [Single; 3], b: [Single; 16]| call_requires(self.turn, (a, b))
        &&& forall|a: [Single; 3], b: [Single; 3]| call_requires(self.both, (a, b))
        &&& forall|a: Single, b: Single| call_requires(self.length, (a, b))
    }

    open spec fn gives(
        &self,
        s: Splat,
        acc: SplatGradAccum,
        g: Gaussian3D<Single>,
        r: GaussianGrad,
    ) -> bool {
        exists|p: Parts| #[trigger]
            assembled(
                self.logit,
                self.times,
                self.invert,
                self.shape,
                self.place,
                self.away,
                self.weigh,
                self.turn,
                self.both,
                self.length,
                s,
                acc,
                g,
                p,
                r,
            )
    }

    fn take_back(&self, s: &Splat, acc: SplatGradAccum, g: &Gaussian3D<Single>) -> (r: GaussianGrad) {
        geometry_backprop(
            self.logit,
            self.times,
            self.invert,
            self.shape,
            self.place,
            self.away,
            self.weigh,
            self.turn,
            self.both,
            self.length,
            s,
            acc,
            g,
        )
    }
}

} // verus!
