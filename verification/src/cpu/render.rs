//! Rendering, and rendering with gradients.

use super::backward::{backward_pass, image_pulls, pulls_back, SplatGradAccum};
use super::forward::{dark, forward_pass, image_outcome, no_light, Light, Rendered};
use super::geometry::Unprojection;
use super::laws::forward_feeds_backward;
use super::loss::ImageLoss;
use super::splat::{
    by_depth, comparable, drawn, footprints, lemma_lists_name_splats, project_and_bin, Splat,
};
use super::tiles::{binned, tiles_over};
use crate::math::{no_coefficients, Gaussian3D};
use crate::num::single::{Single, ZERO};
use vstd::prelude::*;

verus! {

/// The gradient of a Gaussian's parameters.
#[derive(Clone, Copy, Debug)]
pub struct GaussianGrad {
    pub d_position: [Single; 3],
    pub d_rotation: [Single; 4],
    pub d_log_scale: [Single; 3],
    pub d_opacity_logit: Single,
    pub d_sh: [Single; 48],
    /// Length of the gradient of the centre on the screen, which tells where to densify.
    pub screen_grad_norm: Single,
}

/// A gradient is a row of 59 values, in the order of a Gaussian's parameters.
impl View for GaussianGrad {
    type V = Seq<Single>;

    open spec fn view(&self) -> Seq<Single> {
        self.d_position@ + self.d_rotation@ + self.d_log_scale@ + seq![self.d_opacity_logit]
            + self.d_sh@
    }
}

/// Neither the parameters nor the centre on the screen have a gradient.
pub open spec fn is_zero(g: GaussianGrad) -> bool {
    let zero = Single { bits: ZERO };
    &&& g@ == Seq::new(59, |j: int| zero)
    &&& g.screen_grad_norm == zero
}

impl Default for GaussianGrad {
    fn default() -> (r: GaussianGrad)
        ensures
            is_zero(r),
    {
        let zero = Single { bits: ZERO };
        let d_sh = no_coefficients();
        let r = GaussianGrad {
            d_position: [zero, zero, zero],
            d_rotation: [zero, zero, zero, zero],
            d_log_scale: [zero, zero, zero],
            d_opacity_logit: zero,
            d_sh,
            screen_grad_norm: zero,
        };
        assert forall|j: int| 0 <= j < 59 implies r@[j] == zero by {
            if j < 3 {
                assert(r.d_position[j] == zero);
            } else if j < 7 {
                assert(r.d_rotation[j - 3] == zero);
            } else if j < 10 {
                assert(r.d_log_scale[j - 7] == zero);
            } else if j > 10 {
                assert(d_sh@[j - 11] == zero);
            }
        }
        assert(r@ =~= Seq::new(59, |j: int| zero));
        r
    }
}

/// `g` is what the first `k` splats say of Gaussian `i`: the gradient of the last of them
/// that shows it, and zero where none does.
pub open spec fn grad_of(
    splats: Seq<Splat>,
    geo: Seq<GaussianGrad>,
    k: nat,
    i: int,
    g: GaussianGrad,
) -> bool
    decreases k,
{
    if k == 0 {
        is_zero(g)
    } else if splats[k - 1].gi == i {
        g == geo[k - 1]
    } else {
        grad_of(splats, geo, (k - 1) as nat, i, g)
    }
}

/// `r` holds the gradient of each of `n` Gaussians.
pub open spec fn gathered(
    splats: Seq<Splat>,
    geo: Seq<GaussianGrad>,
    n: nat,
    r: Seq<GaussianGrad>,
) -> bool {
    &&& r.len() == n
    &&& forall|i: int| 0 <= i < n ==> grad_of(splats, geo, splats.len(), i, #[trigger] r[i])
}

/// Every splat shows one of `n` Gaussians.
pub open spec fn shows_gaussians(splats: Seq<Splat>, n: nat) -> bool {
    forall|i: int| 0 <= i < splats.len() ==> (#[trigger] splats[i]).gi < n
}

/// Hands the gradient of each splat to the Gaussian that it shows; what is not drawn has a
/// zero gradient.
pub fn gather_grads(splats: &[Splat], geo: &[GaussianGrad], n: usize) -> (r: Vec<GaussianGrad>)
    requires
        geo.len() == splats.len(),
        shows_gaussians(splats@, n as nat),
    ensures
        gathered(splats@, geo@, n as nat, r@),
{
    let mut r: Vec<GaussianGrad> = Vec::new();
    for i in 0..n
        invariant
            r.len() == i,
            forall|j: int| 0 <= j < i ==> is_zero(#[trigger] r[j]),
    {
        r.push(GaussianGrad::default());
    }
    for k in 0..splats.len()
        invariant
            geo.len() == splats.len(),
            shows_gaussians(splats@, n as nat),
            r.len() == n,
            forall|i: int| 0 <= i < n ==> grad_of(splats@, geo@, k as nat, i, #[trigger] r[i]),
    {
        let ghost before = r@;
        let gi = splats[k].gi;
        r[gi] = geo[k];
        proof {
            assert forall|i: int| 0 <= i < n implies grad_of(
                splats@,
                geo@,
                (k + 1) as nat,
                i,
                #[trigger] r[i],
            ) by {
                assert(grad_of(splats@, geo@, k as nat, i, before[i]));
            }
        }
    }
    r
}

/// A Gaussian that one splat shows has the gradient of that splat; one that none shows has no
/// gradient.
pub proof fn gradients_reach_their_gaussians(
    splats: Seq<Splat>,
    geo: Seq<GaussianGrad>,
    n: nat,
    r: Seq<GaussianGrad>,
    i: int,
)
    requires
        gathered(splats, geo, n, r),
        0 <= i < n,
    ensures
        forall|k: int|
            #![trigger splats[k]]
            0 <= k < splats.len() && splats[k].gi == i && (forall|j: int|
                0 <= j < splats.len() && j != k ==> (#[trigger] splats[j]).gi != i) ==> r[i]
                == geo[k],
        (forall|k: int| 0 <= k < splats.len() ==> (#[trigger] splats[k]).gi != i) ==> is_zero(r[i]),
{
    assert(grad_of(splats, geo, splats.len(), i, r[i]));
    assert forall|k: int|
        #![trigger splats[k]]
        0 <= k < splats.len() && splats[k].gi == i && (forall|j: int|
            0 <= j < splats.len() && j != k ==> (#[trigger] splats[j]).gi != i) implies r[i]
        == geo[k] by {
        lemma_grad_of(splats, geo, splats.len(), i, r[i], k);
    }
    if forall|k: int| 0 <= k < splats.len() ==> (#[trigger] splats[k]).gi != i {
        lemma_grad_of(splats, geo, splats.len(), i, r[i], -1);
    }
}

/// Where at most the splat `k` shows Gaussian `i`, what the splats say of it is what that one
/// says.
proof fn lemma_grad_of(
    splats: Seq<Splat>,
    geo: Seq<GaussianGrad>,
    m: nat,
    i: int,
    g: GaussianGrad,
    k: int,
)
    requires
        m <= splats.len(),
        grad_of(splats, geo, m, i, g),
        0 <= k < m ==> splats[k].gi == i,
        forall|j: int| 0 <= j < m && j != k ==> (#[trigger] splats[j]).gi != i,
    ensures
        if 0 <= k < m {
            g == geo[k]
        } else {
            is_zero(g)
        },
    decreases m,
{
    if m > 0 && k != m - 1 {
        assert(splats[m - 1].gi != i);
        lemma_grad_of(splats, geo, (m - 1) as nat, i, g, k);
    }
}

/// The Gaussians behind projected splats are among `n`.
pub open spec fn projected_from(projected: Seq<Option<Splat>>, n: nat) -> bool {
    forall|i: int|
        0 <= i < projected.len() ==> (#[trigger] projected[i] matches Some(s) ==> s.gi < n)
}

proof fn lemma_drawn_shows(projected: Seq<Option<Splat>>, n: nat)
    requires
        projected_from(projected, n),
    ensures
        shows_gaussians(drawn(projected), n),
    decreases projected.len(),
{
    if projected.len() > 0 {
        let fewer = projected.drop_last();
        assert forall|i: int| 0 <= i < fewer.len() implies (#[trigger] fewer[i] matches Some(s)
            ==> s.gi < n) by {
            assert(fewer[i] == projected[i]);
        }
        lemma_drawn_shows(fewer, n);
        assert(projected[projected.len() - 1] == projected.last());
    }
}

proof fn lemma_arranged_shows(splats: Seq<Splat>, arranged: Seq<Splat>, n: nat)
    requires
        shows_gaussians(splats, n),
        by_depth(splats, arranged),
    ensures
        shows_gaussians(arranged, n),
{
    let r = choose|r: Seq<usize>| #[trigger]
        crate::num::order::orders(super::splat::depth_ranks(splats), r) && arranged == Seq::new(
            r.len(),
            |k: int| splats[r[k] as int],
        );
    assert forall|i: int| 0 <= i < arranged.len() implies (#[trigger] arranged[i]).gi < n by {
        assert(r.contains(r[i]));
    }
}

/// Renders the projected Gaussians: three channels per pixel.
pub fn render_color<
    P: Fn(usize, usize, &Splat) -> Single + Copy,
    A: Fn(&Splat, Single) -> Single + Copy,
    B: Fn(&Splat, Single, Light) -> Light + Copy,
    O: Fn(Light) -> [Single; 3] + Copy,
>(
    power: P,
    alpha: A,
    blend: B,
    over: O,
    projected: &[Option<Splat>],
    w: usize,
    h: usize,
) -> (r: Vec<Single>)
    requires
        forall|x: usize, y: usize, s: &Splat| call_requires(power, (x, y, s)),
        forall|s: &Splat, p: Single| call_requires(alpha, (s, p)),
        forall|s: &Splat, a: Single, l: Light| call_requires(blend, (s, a, l)),
        forall|l: Light| call_requires(over, (l,)),
        w + 16 <= usize::MAX,
        h + 16 <= usize::MAX,
        w * h * 3 <= usize::MAX,
        tiles_over(w as nat) * tiles_over(h as nat) <= usize::MAX,
        comparable(drawn(projected@)),
    ensures
        exists|t: Trace| #[trigger]
            rendered(power, alpha, blend, over, projected@, w as int, h as int, t) && r
                == t.image.rgb,
{
    let (splats, lists, _nx) = project_and_bin(projected, w, h);
    proof {
        assert(splats@.len() == splats.len());
        lemma_lists_name_splats(splats@, w as int, h as int, lists@);
    }
    let image = forward_pass(power, alpha, blend, over, no_light(), &splats, &lists, w, h);
    assert(rendered(
        power,
        alpha,
        blend,
        over,
        projected@,
        w as int,
        h as int,
        Trace { splats: splats@, lists: lists@, image },
    ));
    image.rgb
}

/// What is computed on the way to an image.
pub struct Trace {
    pub splats: Seq<Splat>,
    pub lists: Seq<Vec<usize>>,
    pub image: Rendered,
}

/// `t` can be how the projected Gaussians are rendered: arranged by depth, filed under the
/// tiles that they touch, and composited.
pub open spec fn rendered<
    P: Fn(usize, usize, &Splat) -> Single,
    A: Fn(&Splat, Single) -> Single,
    B: Fn(&Splat, Single, Light) -> Light,
    O: Fn(Light) -> [Single; 3],
>(
    power: P,
    alpha: A,
    blend: B,
    over: O,
    projected: Seq<Option<Splat>>,
    w: int,
    h: int,
    t: Trace,
) -> bool {
    &&& by_depth(drawn(projected), t.splats)
    &&& binned(
        footprints(t.splats),
        tiles_over(w as nat) as int,
        tiles_over(h as nat) as int,
        t.lists,
    )
    &&& t.image.wf(w * h)
    &&& image_outcome(power, alpha, blend, over, dark(), t.lists, t.splats, w, h, &t.image)
}

/// What is computed on the way from an image to the gradients of the Gaussians: the gradient
/// of each sample, of each splat, and of the Gaussian that each splat shows.
pub struct BackTrace {
    pub dl: Vec<Single>,
    pub acc: Seq<SplatGradAccum>,
    pub geo: Seq<GaussianGrad>,
}

/// `loss` and `grads` can be the loss of the image `t` and the gradients of the Gaussians.
pub open spec fn differentiated<
    P: Fn(usize, usize, &Splat) -> Single,
    A: Fn(&Splat, Single) -> Single,
    L: Fn(Single) -> Light,
    G: Fn(usize, usize, &Splat, Single, Single, [Single; 3], Light, SplatGradAccum) -> (
        Light,
        SplatGradAccum,
    ),
    D: Fn(SplatGradAccum, SplatGradAccum) -> SplatGradAccum,
    Q: ImageLoss,
    Y: Unprojection,
>(
    power: P,
    alpha: A,
    leak: L,
    pull: G,
    sum_of: D,
    loss_of: Q,
    geometry: Y,
    w: int,
    h: int,
    gaussians: Seq<Gaussian3D<Single>>,
    t: Trace,
    b: BackTrace,
    loss: Single,
    grads: Seq<GaussianGrad>,
) -> bool {
    &&& loss_of.gives(w, h, t.image.rgb@, loss, b.dl@)
    &&& b.dl.len() == w * h * 3
    &&& b.acc.len() == t.splats.len()
    &&& image_pulls(
        power,
        alpha,
        leak,
        pull,
        sum_of,
        t.splats,
        t.lists,
        w,
        h,
        t.image,
        b.dl@,
        b.acc,
    )
    &&& b.geo.len() == t.splats.len()
    &&& forall|i: int|
        0 <= i < b.geo.len() ==> geometry.gives(
            t.splats[i],
            b.acc[i],
            gaussians[t.splats[i].gi as int],
            #[trigger] b.geo[i],
        )
    &&& gathered(t.splats, b.geo, gaussians.len(), grads)
}

/// `loss` and `grads` can be the loss of the rendered image and the gradients of the
/// Gaussians.
pub open spec fn render_outcome<
    P: Fn(usize, usize, &Splat) -> Single,
    A: Fn(&Splat, Single) -> Single,
    B: Fn(&Splat, Single, Light) -> Light,
    O: Fn(Light) -> [Single; 3],
    L: Fn(Single) -> Light,
    G: Fn(usize, usize, &Splat, Single, Single, [Single; 3], Light, SplatGradAccum) -> (
        Light,
        SplatGradAccum,
    ),
    D: Fn(SplatGradAccum, SplatGradAccum) -> SplatGradAccum,
    Q: ImageLoss,
    Y: Unprojection,
>(
    power: P,
    alpha: A,
    blend: B,
    over: O,
    leak: L,
    pull: G,
    sum_of: D,
    loss_of: Q,
    geometry: Y,
    gaussians: Seq<Gaussian3D<Single>>,
    projected: Seq<Option<Splat>>,
    w: int,
    h: int,
    loss: Single,
    grads: Seq<GaussianGrad>,
) -> bool {
    exists|t: Trace, b: BackTrace| #[trigger]
        differentiated(
            power,
            alpha,
            leak,
            pull,
            sum_of,
            loss_of,
            geometry,
            w,
            h,
            gaussians,
            t,
            b,
            loss,
            grads,
        ) && rendered(power, alpha, blend, over, projected, w, h, t)
}

/// Renders the projected Gaussians, and returns the loss of the image together with the
/// gradient of each Gaussian.
pub fn render_and_backward<
    P: Fn(usize, usize, &Splat) -> Single + Copy,
    A: Fn(&Splat, Single) -> Single + Copy,
    B: Fn(&Splat, Single, Light) -> Light + Copy,
    O: Fn(Light) -> [Single; 3] + Copy,
    L: Fn(Single) -> Light + Copy,
    G: Fn(usize, usize, &Splat, Single, Single, [Single; 3], Light, SplatGradAccum) -> (
        Light,
        SplatGradAccum,
    ) + Copy,
    D: Fn(SplatGradAccum, SplatGradAccum) -> SplatGradAccum,
    Q: ImageLoss,
    Y: Unprojection,
>(
    power: P,
    alpha: A,
    blend: B,
    over: O,
    leak: L,
    pull: G,
    sum_of: D,
    loss_of: &Q,
    geometry: &Y,
    gaussians: &[Gaussian3D<Single>],
    projected: &[Option<Splat>],
    w: usize,
    h: usize,
) -> (r: (Single, Vec<GaussianGrad>))
    requires
        forall|x: usize, y: usize, s: &Splat| call_requires(power, (x, y, s)),
        forall|s: &Splat, p: Single| call_requires(alpha, (s, p)),
        forall|s: &Splat, a: Single, l: Light| call_requires(blend, (s, a, l)),
        forall|l: Light| call_requires(over, (l,)),
        forall|t: Single| call_requires(leak, (t,)),
        pulls_back(pull),
        forall|a: SplatGradAccum, b: SplatGradAccum| call_requires(sum_of, (a, b)),
        loss_of.judges(w as int, h as int),
        geometry.ready(),
        w + 16 <= usize::MAX,
        h + 16 <= usize::MAX,
        w * h * 3 <= usize::MAX,
        tiles_over(w as nat) * tiles_over(h as nat) <= usize::MAX,
        comparable(drawn(projected@)),
        projected_from(projected@, gaussians@.len()),
    ensures
        render_outcome(
            power,
            alpha,
            blend,
            over,
            leak,
            pull,
            sum_of,
            *loss_of,
            *geometry,
            gaussians@,
            projected@,
            w as int,
            h as int,
            r.0,
            r.1@,
        ),
{
    let (splats, lists, _nx) = project_and_bin(projected, w, h);
    proof {
        assert(splats@.len() == splats.len());
        lemma_lists_name_splats(splats@, w as int, h as int, lists@);
        lemma_drawn_shows(projected@, gaussians@.len());
        lemma_arranged_shows(drawn(projected@), splats@, gaussians@.len());
    }
    let image = forward_pass(power, alpha, blend, over, no_light(), &splats, &lists, w, h);
    proof {
        assert forall|k: int| 0 <= k < lists.len() && (#[trigger] lists[k]).len() > 0 implies
            super::backward::lasts_listed(
            super::tiles::bounds_of(k, w as int, h as int),
            w as int,
            lists[k]@,
            image.last@,
        ) by {
            forward_feeds_backward(
                power,
                alpha,
                blend,
                over,
                dark(),
                lists@,
                splats@,
                w as int,
                h as int,
                image,
                k,
            );
        }
    }
    let (loss, dl) = loss_of.judge(&image.rgb, w, h);
    let acc = backward_pass(
        power,
        alpha,
        leak,
        pull,
        sum_of,
        &splats,
        &lists,
        w,
        h,
        &image,
        &dl,
    );
    let mut geo: Vec<GaussianGrad> = Vec::new();
    for i in 0..splats.len()
        invariant
            geometry.ready(),
            shows_gaussians(splats@, gaussians@.len()),
            acc.len() == splats.len(),
            geo.len() == i,
            forall|j: int|
                0 <= j < i ==> geometry.gives(
                    splats[j],
                    acc[j],
                    gaussians[splats[j].gi as int],
                    #[trigger] geo[j],
                ),
    {
        let s = &splats[i];
        geo.push(geometry.take_back(s, acc[i], &gaussians[s.gi]));
    }
    let grads = gather_grads(&splats, &geo, gaussians.len());
    proof {
        let t = Trace { splats: splats@, lists: lists@, image };
        let b = BackTrace { dl, acc: acc@, geo: geo@ };
        assert(rendered(power, alpha, blend, over, projected@, w as int, h as int, t));
        assert(differentiated(
            power,
            alpha,
            leak,
            pull,
            sum_of,
            *loss_of,
            *geometry,
            w as int,
            h as int,
            gaussians@,
            t,
            b,
            loss,
            grads@,
        ));
        assert(render_outcome(
            power,
            alpha,
            blend,
            over,
            leak,
            pull,
            sum_of,
            *loss_of,
            *geometry,
            gaussians@,
            projected@,
            w as int,
            h as int,
            loss,
            grads@,
        ));
    }
    (loss, grads)
}

} // verus!
