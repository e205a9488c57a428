//! When what is done in training, and what a colour is read as.

use super::color::{
    before_comma, names, parts, read_as, reads, trim, trim_back, trim_front, ColorFault,
};
use super::densify::{opacities_reset, Limits};
use super::optimizer::{adam_stepped, AdamState, TrainConfig};
use super::train::{advanced, chores_of, greatest, least, xorshift, Chores, Midway};
use crate::cpu::render::GaussianGrad;
use crate::math::Gaussian3D;
use crate::num::single::{Single, ZERO};
use crate::num::text::white;
use vstd::prelude::*;

verus! {

// ── the schedule ────────────────────────────────────────────────────────────────────────

/// Every hundredth iteration from the first to the last of its range densifies the model, and no
/// other does.
pub proof fn every_hundredth_iteration_densifies(iter: int, cfg: TrainConfig, save_interval: int)
    requires
        iter >= 0,
    ensures
        chores_of(iter, cfg, save_interval).densify <==> exists|k: int|
            k >= 1 && iter == #[trigger] (100 * k) && cfg.densify_from_iter <= iter
                && iter <= cfg.densify_until_iter,
{
    if chores_of(iter, cfg, save_interval).densify {
        assert(iter == 100 * (iter / 100));
    }
}

/// Opacities are reset, and checkpoints saved, at every multiple of their interval, the zeroth
/// excepted; there is a report at every multiple of ten.
pub proof fn chores_come_at_their_intervals(iter: int, cfg: TrainConfig, save_interval: int)
    requires
        iter >= 0,
        cfg.opacity_reset_iter > 0,
        save_interval > 0,
    ensures
        chores_of(iter, cfg, save_interval).reset_opacities <==> exists|k: int|
            k >= 1 && iter == #[trigger] (k * cfg.opacity_reset_iter),
        chores_of(iter, cfg, save_interval).checkpoint <==> exists|k: int|
            k >= 1 && iter == #[trigger] (k * save_interval),
        chores_of(iter, cfg, save_interval).report <==> exists|k: int|
            iter == #[trigger] (10 * k),
{
    lemma_multiples(iter, cfg.opacity_reset_iter as int);
    lemma_multiples(iter, save_interval);
    if iter % 10 == 0 {
        assert(iter == 10 * (iter / 10));
    }
}

proof fn lemma_multiples(n: int, d: int)
    requires
        0 <= n,
        0 < d,
    ensures
        n % d == 0 && n > 0 <==> exists|k: int| k >= 1 && n == #[trigger] (k * d),
{
    if n % d == 0 && n > 0 {
        let k = n / d;
        vstd::arithmetic::div_mod::lemma_fundamental_div_mod(n, d);
        assert(n == k * d) by (nonlinear_arith)
            requires
                n == d * k + 0,
        ;
        assert(k >= 1) by (nonlinear_arith)
            requires
                n == k * d,
                n > 0,
                d > 0,
        ;
    }
    if exists|k: int| k >= 1 && n == #[trigger] (k * d) {
        let k = choose|k: int| k >= 1 && n == #[trigger] (k * d);
        vstd::arithmetic::div_mod::lemma_mod_multiples_basic(k, d);
        assert(k * d > 0) by (nonlinear_arith)
            requires
                k >= 1,
                d > 0,
        ;
    }
}

/// An iteration takes one step of the optimiser.  The number of Gaussians changes only where the
/// model is densified, and then all screen gradients begin anew; the opacities are lowered last,
/// where they are reset.
pub proof fn iterations_do_what_is_due<
    A: Fn(usize, Single, Single, Single, Single) -> (Single, Single, Single),
    S: Fn(Single, Single) -> Single,
    M: Fn(Single, Single) -> Single,
    N: Fn([Single; 4]) -> Single,
    D: Fn([Single; 4], Single) -> [Single; 4],
    V: Fn(Single, u32) -> Single,
    O: Fn(&Gaussian3D<Single>) -> Single,
    E: Fn(&Gaussian3D<Single>) -> [Single; 3],
    P: Fn(&Gaussian3D<Single>) -> [Gaussian3D<Single>; 2],
    C: Fn(&Gaussian3D<Single>, Single) -> Gaussian3D<Single>,
    Q: Fn(Single) -> Single,
    L: Fn(Single) -> Single,
>(
    adam: A,
    minus: S,
    more: M,
    norm: N,
    shorten: D,
    average: V,
    opacity: O,
    scales: E,
    split: P,
    duplicate: C,
    opacity_of: Q,
    logit_of: L,
    cfg: TrainConfig,
    limits: Limits,
    due: Chores,
    grads: Seq<GaussianGrad>,
    gs0: Seq<Gaussian3D<Single>>,
    s0: AdamState,
    m: Midway,
    gs1: Seq<Gaussian3D<Single>>,
    s1: AdamState,
)
    requires
        advanced(
            adam,
            minus,
            more,
            norm,
            shorten,
            average,
            opacity,
            scales,
            split,
            duplicate,
            opacity_of,
            logit_of,
            cfg,
            limits,
            due,
            grads,
            gs0,
            s0,
            m,
            gs1,
            s1,
        ),
    ensures
        s1.t == s0.t + 1,
        adam_stepped(adam, minus, more, norm, shorten, cfg, grads, gs0, s0, m.stepped, m.state),
        !due.densify ==> gs1.len() == gs0.len() && s1 == m.state,
        due.densify ==> forall|i: int|
            0 <= i < s1.grad_accum.len() ==> #[trigger] s1.grad_accum[i] == (Single { bits: ZERO }),
        due.densify ==> forall|i: int|
            0 <= i < s1.grad_denom.len() ==> #[trigger] s1.grad_denom[i] == 0,
        due.densify ==> forall|c: int|
            0 <= c < m.state.m1.len() ==> #[trigger] s1.m1[c] == m.state.m1[c],
        due.densify ==> forall|c: int|
            0 <= c < m.state.m2.len() ==> #[trigger] s1.m2[c] == m.state.m2[c],
        due.densify ==> forall|c: int|
            m.state.m1.len() <= c < s1.m1.len() ==> #[trigger] s1.m1[c] == (Single { bits: ZERO }),
        due.densify ==> forall|c: int|
            m.state.m2.len() <= c < s1.m2.len() ==> #[trigger] s1.m2[c] == (Single { bits: ZERO }),
        !due.densify && !due.reset_opacities ==> gs1 == m.stepped,
        !due.reset_opacities ==> gs1 == m.dense,
        due.reset_opacities ==> gs1.len() == m.dense.len() && opacities_reset(
            opacity_of,
            logit_of,
            m.dense,
            gs1,
        ),
{
    if due.densify {
        assert(m.state.wf());
        assert(s1.slots() >= m.state.slots());
        assert forall|c: int| 0 <= c < m.state.m1.len() implies #[trigger] s1.m1[c]
            == m.state.m1[c] by {
            assert(s1.m1@[c] == m.state.m1@[c]);
        }
        assert forall|c: int| 0 <= c < m.state.m2.len() implies #[trigger] s1.m2[c]
            == m.state.m2[c] by {
            assert(s1.m2@[c] == m.state.m2@[c]);
        }
        assert forall|c: int| m.state.m1.len() <= c < s1.m1.len() implies #[trigger] s1.m1[c] == (
        Single { bits: ZERO }) by {
            assert(s1.m1@[c] == (Single { bits: ZERO }));
        }
        assert forall|c: int| m.state.m2.len() <= c < s1.m2.len() implies #[trigger] s1.m2[c] == (
        Single { bits: ZERO }) by {
            assert(s1.m2@[c] == (Single { bits: ZERO }));
        }
    }
}

/// The camera sequence is that of the linear generator with the shifts 13, 7 and 17.
pub proof fn camera_sequence_is_linear(x: u64, y: u64)
    ensures
        xorshift(x ^ y) == xorshift(x) ^ xorshift(y),
        xorshift(1) == 0x4082_2041,
        xorshift(0x100_0000_0000) == 0x8224410200000000,
{
    assert({
        let z = x ^ y;
        let a = z ^ (z << 13);
        let b = a ^ (a >> 7);
        let c = b ^ (b << 17);
        let d = x ^ (x << 13);
        let e = d ^ (d >> 7);
        let f = e ^ (e << 17);
        let g = y ^ (y << 13);
        let h = g ^ (g >> 7);
        let i = h ^ (h << 17);
        c == f ^ i
    }) by (bit_vector);
    assert({
        let a = 1u64 ^ (1u64 << 13);
        let b = a ^ (a >> 7);
        b ^ (b << 17) == 0x4082_2041
    }) by (bit_vector);
    assert({
        let a = 0x100_0000_0000u64 ^ (0x100_0000_0000u64 << 13);
        let b = a ^ (a >> 7);
        b ^ (b << 17) == 0x8224410200000000
    }) by (bit_vector);
}

// ── the extent ──────────────────────────────────────────────────────────────────────────

/// The least and the greatest coordinate along an axis are coordinates of Gaussians, if one has a
/// finite coordinate there: none lies beyond them.
pub proof fn bounds_are_centres(gs: Seq<Gaussian3D<Single>>, axis: int, n: nat)
    requires
        n <= gs.len(),
        0 <= axis < 3,
    ensures
        least(gs, axis, n) == (Single { bits: super::train::LARGEST }) || exists|i: int|
            0 <= i < n && least(gs, axis, n) == (#[trigger] gs[i]).position[axis],
        greatest(gs, axis, n) == (Single { bits: super::train::SMALLEST }) || exists|i: int|
            0 <= i < n && greatest(gs, axis, n) == (#[trigger] gs[i]).position[axis],
    decreases n,
{
    if n > 0 {
        bounds_are_centres(gs, axis, (n - 1) as nat);
        assert(gs[n - 1].position[axis] == gs[n - 1].position[axis]);
    }
}

// ── colours ─────────────────────────────────────────────────────────────────────────────

/// No comma stands in `s`.
pub open spec fn plain(s: Seq<char>) -> bool {
    forall|i: int| 0 <= i < s.len() ==> #[trigger] s[i] != ','
}

proof fn lemma_comma(a: Seq<char>, rest: Seq<char>)
    requires
        plain(a),
    ensures
        before_comma(a + seq![','] + rest) == a.len(),
        before_comma(a) == a.len(),
    decreases a.len(),
{
    let s = a + seq![','] + rest;
    if a.len() > 0 {
        let b = a.skip(1);
        assert(forall|i: int| 0 <= i < b.len() ==> #[trigger] b[i] == a[i + 1]);
        lemma_comma(b, rest);
        assert(s[0] == a[0]);
        assert(s.skip(1) =~= b + seq![','] + rest);
    } else {
        assert(s[0] == ',');
    }
}

/// Three numbers between commas are a colour, and the white space around them does not matter.
pub proof fn three_parts_are_a_colour<F: Fn(&str) -> Result<Single, String>>(
    parse: F,
    value: spec_fn(Seq<char>) -> Option<Single>,
    a: Seq<char>,
    b: Seq<char>,
    c: Seq<char>,
    r: Result<[Single; 3], ColorFault>,
)
    requires
        forall|s: &str, v: Result<Single, String>| #[trigger]
            call_ensures(parse, (s,), v) ==> match v {
                Ok(x) => value(s@) == Some(x),
                Err(_) => value(s@) is None,
            },
        plain(a),
        plain(b),
        plain(c),
        names(parse, a + seq![','] + (b + seq![','] + c), r),
    ensures
        value(trim(a)) is Some && value(trim(b)) is Some && value(trim(c)) is Some ==> r is Ok
            && r->Ok_0[0] == value(trim(a))->0 && r->Ok_0[1] == value(trim(b))->0 && r->Ok_0[2]
            == value(trim(c))->0,
        value(trim(a)) is None || value(trim(b)) is None || value(trim(c)) is None ==> r is Err,
{
    let t = b + seq![','] + c;
    let s = a + seq![','] + t;
    lemma_comma(a, t);
    lemma_comma(b, c);
    lemma_comma(c, Seq::empty());
    assert(s.take(a.len() as int) =~= a);
    assert(s.skip(a.len() as int + 1) =~= t);
    assert(t.take(b.len() as int) =~= b);
    assert(t.skip(b.len() as int + 1) =~= c);
    reveal_with_fuel(parts, 4);
    assert(parts(c) == seq![c]);
    assert(parts(t) =~= seq![b, c]);
    assert(parts(s) =~= seq![a, b, c]);
    let values = choose|values: Seq<Single>| #[trigger]
        read_as(parse, parts(s), values) && match r {
            Ok(c) => parts(s).len() == 3 && values == c@,
            Err(ColorFault::Count) => parts(s).len() != 3 && values.len() == parts(s).len(),
            Err(ColorFault::Number(e)) => values.len() < parts(s).len() && reads(
                parse,
                trim(parts(s)[values.len() as int]),
                Err(e),
            ),
        };
    assert forall|i: int| 0 <= i < values.len() implies value(trim(parts(s)[i])) == Some(
        #[trigger] values[i],
    ) by {
        assert(reads(parse, trim(parts(s)[i]), Ok(values[i])));
    }
    match r {
        Ok(q) => {
            assert(q@[0] == values[0] && q@[1] == values[1] && q@[2] == values[2]);
        },
        Err(_) => {},
    }
}

/// Trimming takes the white space from both ends, and nothing else.
pub proof fn trimming_takes_white_space(s: Seq<char>) -> (r: (int, int))
    ensures
        0 <= r.0 <= r.1 <= s.len(),
        trim(s) == s.subrange(r.0, r.1),
        forall|i: int| 0 <= i < r.0 ==> white(#[trigger] s[i]),
        forall|i: int| r.1 <= i < s.len() ==> white(#[trigger] s[i]),
        trim(s).len() > 0 ==> !white(trim(s)[0]) && !white(trim(s).last()),
{
    let lo = lemma_trim_front(s);
    let f = trim_front(s);
    let hi = lemma_trim_back(f);
    assert forall|i: int| lo + hi <= i < s.len() implies white(#[trigger] s[i]) by {
        assert(f[i - lo] == s[i]);
    }
    assert(trim(s) =~= s.subrange(lo, lo + hi));
    if trim(s).len() > 0 {
        assert(trim(s)[0] == f[0]);
    }
    (lo, lo + hi)
}

proof fn lemma_trim_front(s: Seq<char>) -> (n: int)
    ensures
        0 <= n <= s.len(),
        trim_front(s) == s.skip(n),
        forall|i: int| 0 <= i < n ==> white(#[trigger] s[i]),
        trim_front(s).len() > 0 ==> !white(trim_front(s)[0]),
    decreases s.len(),
{
    if s.len() > 0 && white(s[0]) {
        let t = s.skip(1);
        let n = lemma_trim_front(t);
        assert forall|i: int| 0 <= i < n + 1 implies white(#[trigger] s[i]) by {
            if i > 0 {
                assert(t[i - 1] == s[i]);
            }
        }
        assert(t.skip(n) =~= s.skip(n + 1));
        n + 1
    } else {
        assert(s.skip(0) =~= s);
        0
    }
}

proof fn lemma_trim_back(s: Seq<char>) -> (n: int)
    ensures
        0 <= n <= s.len(),
        trim_back(s) == s.take(n),
        forall|i: int| n <= i < s.len() ==> white(#[trigger] s[i]),
        trim_back(s).len() > 0 ==> !white(trim_back(s).last()),
    decreases s.len(),
{
    if s.len() > 0 && white(s.last()) {
        let t = s.drop_last();
        let n = lemma_trim_back(t);
        assert(t.take(n) =~= s.take(n));
        assert forall|i: int| n <= i < s.len() implies white(#[trigger] s[i]) by {
            if i < t.len() {
                assert(t[i] == s[i]);
            }
        }
        n
    } else {
        assert(s.take(s.len() as int) =~= s);
        s.len() as int
    }
}

} // verus!
