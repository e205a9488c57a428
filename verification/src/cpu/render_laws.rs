//! What a rendering with gradients gives each Gaussian.

use super::backward::SplatGradAccum;
use super::forward::{image_outcome, Light};
use super::geometry::Unprojection;
use super::loss::ImageLoss;
use super::render::{differentiated, grad_of, is_zero, rendered, BackTrace, GaussianGrad, Trace};
use super::splat::Splat;
use crate::math::Gaussian3D;
use crate::num::single::Single;
use vstd::prelude::*;

verus! {

/// No splat from the first `k` on shows Gaussian `i`.
pub open spec fn hidden_from(splats: Seq<Splat>, k: int, i: int) -> bool {
    forall|j: int| k <= j < splats.len() ==> (#[trigger] splats[j]).gi != i
}

/// The gradient of Gaussian `i` is what the geometry makes of the splat that shows it, of what
/// the pixels say of that splat, and of Gaussian `i` itself; of several splats, it is the last.
/// Where no splat shows it, it is zero.
pub proof fn gaussians_have_the_gradient_of_their_splat<
    P: Fn(usize, usize, &Splat) -> Single,
    A: Fn(&Splat, Single) -> Single,
    L: Fn(Single) -> Light,
    G: Fn(usize, usize, &Splat, Single, Single, [Single; 3], Light, SplatGradAccum) -> (
        Light,
        SplatGradAccum,
    ),
    D: Fn(SplatGradAccum, SplatGradAccum) -> SplatGradAccum,
    I: ImageLoss,
    U: Unprojection,
>(
    power: P,
    alpha: A,
    leak: L,
    pull: G,
    sum_of: D,
    loss_of: I,
    geometry: U,
    w: int,
    h: int,
    gaussians: Seq<Gaussian3D<Single>>,
    t: Trace,
    b: BackTrace,
    loss: Single,
    grads: Seq<GaussianGrad>,
    i: int,
)
    requires
        differentiated(
            power,
            alpha,
            leak,
            pull,
            sum_of,
            loss_of,
            geometry,
            w,
            h,
            gaussians,
            t,
            b,
            loss,
            grads,
        ),
        0 <= i < gaussians.len(),
    ensures
        grads.len() == gaussians.len(),
        hidden_from(t.splats, 0, i) ==> is_zero(grads[i]),
        forall|k: int|
            #![trigger t.splats[k]]
            0 <= k < t.splats.len() && t.splats[k].gi == i && hidden_from(t.splats, k + 1, i)
                ==> geometry.gives(t.splats[k], b.acc[k], gaussians[i], grads[i]),
{
    let n = t.splats.len();
    assert(grad_of(t.splats, b.geo, n, i, grads[i]));
    if hidden_from(t.splats, 0, i) {
        lemma_last(t.splats, b.geo, n, i, grads[i], -1);
    }
    assert forall|k: int|
        #![trigger t.splats[k]]
        0 <= k < n && t.splats[k].gi == i && hidden_from(
            t.splats,
            k + 1,
            i,
        ) implies geometry.gives(t.splats[k], b.acc[k], gaussians[i], grads[i]) by {
        lemma_last(t.splats, b.geo, n, i, grads[i], k);
        assert(geometry.gives(
            t.splats[k],
            b.acc[k],
            gaussians[t.splats[k].gi as int],
            b.geo[k],
        ));
    }
}

proof fn lemma_last(
    splats: Seq<Splat>,
    geo: Seq<GaussianGrad>,
    m: nat,
    i: int,
    g: GaussianGrad,
    k: int,
)
    requires
        m <= splats.len(),
        grad_of(splats, geo, m, i, g),
        -1 <= k < m,
        k >= 0 ==> splats[k].gi == i,
        hidden_from(splats, k + 1, i),
    ensures
        if k >= 0 {
            g == geo[k]
        } else {
            is_zero(g)
        },
    decreases m,
{
    if m > 0 && k != m - 1 {
        assert(splats[m - 1].gi != i);
        lemma_last(splats, geo, (m - 1) as nat, i, g, k);
    }
}

/// The loss is that of the rendered image, and its gradient is what goes back; the image is
/// rendered from no light at all, with everything shining through.
pub proof fn losses_judge_what_is_rendered<
    P: Fn(usize, usize, &Splat) -> Single,
    A: Fn(&Splat, Single) -> Single,
    B: Fn(&Splat, Single, Light) -> Light,
    O: Fn(Light) -> [Single; 3],
    L: Fn(Single) -> Light,
    G: Fn(usize, usize, &Splat, Single, Single, [Single; 3], Light, SplatGradAccum) -> (
        Light,
        SplatGradAccum,
    ),
    D: Fn(SplatGradAccum, SplatGradAccum) -> SplatGradAccum,
    I: ImageLoss,
    U: Unprojection,
>(
    power: P,
    alpha: A,
    blend: B,
    over: O,
    leak: L,
    pull: G,
    sum_of: D,
    loss_of: I,
    geometry: U,
    w: int,
    h: int,
    gaussians: Seq<Gaussian3D<Single>>,
    projected: Seq<Option<Splat>>,
    t: Trace,
    b: BackTrace,
    loss: Single,
    grads: Seq<GaussianGrad>,
)
    requires
        rendered(power, alpha, blend, over, projected, w, h, t),
        differentiated(
            power,
            alpha,
            leak,
            pull,
            sum_of,
            loss_of,
            geometry,
            w,
            h,
            gaussians,
            t,
            b,
            loss,
            grads,
        ),
    ensures
        loss_of.gives(w, h, t.image.rgb@, loss, b.dl@),
        exists|start: Light|
            start.red.bits == 0 && start.green.bits == 0 && start.blue.bits == 0 && start.t.bits
                == 0x3F80_0000 && #[trigger] image_outcome(
                power,
                alpha,
                blend,
                over,
                start,
                t.lists,
                t.splats,
                w,
                h,
                &t.image,
            ),
{
    let start = super::forward::dark();
    assert(image_outcome(power, alpha, blend, over, start, t.lists, t.splats, w, h, &t.image));
}

} // verus!
