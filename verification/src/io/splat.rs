//! The compact `.splat` format: 32 bytes per Gaussian, for display.
//!
//! The kernels: `scale` of a log scale, the `tone` of a degree-0 coefficient, the `coverage` of
//! an opacity logit, and the `byte` of either; `norm` is the length of a quaternion, `divide`
//! what it says, `stretch` takes a component to where bytes are, and `whole` rounds it.

use crate::math::quaternion::{normalize, normalized};
use crate::math::{held, hold, in_unit, unit, Gaussian3D};
use crate::num::bytes::{put_single, u32_le};
use crate::num::single::{Single, ZERO};
use vstd::prelude::*;

verus! {

/// Bytes per Gaussian.
pub const SPLAT_BYTES: usize = 32;

/// Three binary32 values.
pub open spec fn triple(v: [Single; 3]) -> Seq<u8> {
    u32_le(v[0].bits) + u32_le(v[1].bits) + u32_le(v[2].bits)
}

/// `b` can be the record of `g`: its centre, its scales, red, green, blue and coverage, and
/// its rotation.
pub open spec fn is_record<
    S: Fn(Single) -> Single,
    T: Fn(Single) -> Single,
    O: Fn(Single) -> Single,
    B: Fn(Single) -> u8,
    N: Fn([Single; 4]) -> Single,
    D: Fn(Single, Single) -> Single,
    R: Fn(Single) -> Single,
    W: Fn(Single) -> u8,
>(
    scale: S,
    tone: T,
    coverage: O,
    byte: B,
    norm: N,
    divide: D,
    stretch: R,
    whole: W,
    g: Gaussian3D<Single>,
    b: Seq<u8>,
) -> bool {
    exists|s: [Single; 3], c: [u8; 4], q: [u8; 4]|
        {
            &&& #[trigger] scaled(scale, g.log_scale, s)
            &&& #[trigger] colored(tone, coverage, byte, g, c)
            &&& #[trigger] packed(norm, divide, stretch, whole, g.rotation, q)
            &&& b == triple(g.position) + triple(s) + c@ + q@
        }
}

/// `s` can be the scales of the log scales `l`.
pub open spec fn scaled<S: Fn(Single) -> Single>(scale: S, l: [Single; 3], s: [Single; 3]) -> bool {
    &&& call_ensures(scale, (l[0],), s[0])
    &&& call_ensures(scale, (l[1],), s[1])
    &&& call_ensures(scale, (l[2],), s[2])
}

/// `b` can be the byte of what `of` gives for `v`, held in the unit interval.
pub open spec fn encodes<F: Fn(Single) -> Single, B: Fn(Single) -> u8>(
    of: F,
    byte: B,
    v: Single,
    b: u8,
) -> bool {
    exists|x: Single| #[trigger] call_ensures(of, (v,), x) && call_ensures(byte, (in_unit(x),), b)
}

/// `c` can be the colour and coverage of `g`; the degree-0 coefficients of the channels are
/// 16 apart.
pub open spec fn colored<
    T: Fn(Single) -> Single,
    O: Fn(Single) -> Single,
    B: Fn(Single) -> u8,
>(tone: T, coverage: O, byte: B, g: Gaussian3D<Single>, c: [u8; 4]) -> bool {
    &&& encodes(tone, byte, g.sh_coeffs[0], c[0])
    &&& encodes(tone, byte, g.sh_coeffs[16], c[1])
    &&& encodes(tone, byte, g.sh_coeffs[32], c[2])
    &&& encodes(coverage, byte, g.opacity_logit, c[3])
}

/// The pattern of `255.0`.
pub const TOP: u32 = 0x437F_0000;

/// `b` can be the byte of the component `v` of a rotation.
pub open spec fn component<R: Fn(Single) -> Single, W: Fn(Single) -> u8>(
    stretch: R,
    whole: W,
    v: Single,
    b: u8,
) -> bool {
    exists|x: Single| #[trigger]
        call_ensures(stretch, (v,), x) && call_ensures(
            whole,
            (held(x, Single { bits: ZERO }, Single { bits: TOP }),),
            b,
        )
}

/// `b` can be the four bytes of the rotation `q`, made one long.
pub open spec fn packed<
    N: Fn([Single; 4]) -> Single,
    D: Fn(Single, Single) -> Single,
    R: Fn(Single) -> Single,
    W: Fn(Single) -> u8,
>(norm: N, divide: D, stretch: R, whole: W, q: [Single; 4], b: [u8; 4]) -> bool {
    exists|u: [Single; 4]| #[trigger]
        normalized(norm, divide, q, u) && forall|i: int|
            0 <= i < 4 ==> component(stretch, whole, u[i], #[trigger] b[i])
}

/// The byte of what `of` gives for `v`.
fn encode<F: Fn(Single) -> Single, B: Fn(Single) -> u8>(of: F, byte: B, v: Single) -> (r: u8)
    requires
        forall|v: Single| call_requires(of, (v,)),
        forall|v: Single| call_requires(byte, (v,)),
    ensures
        encodes(of, byte, v, r),
{
    let x = of(v);
    byte(unit(x))
}

/// The byte of a component of a rotation.
fn pack<R: Fn(Single) -> Single, W: Fn(Single) -> u8>(stretch: R, whole: W, v: Single) -> (r: u8)
    requires
        forall|v: Single| call_requires(stretch, (v,)),
        forall|v: Single| call_requires(whole, (v,)),
    ensures
        component(stretch, whole, v, r),
{
    let x = stretch(v);
    whole(hold(x, Single { bits: ZERO }, Single { bits: TOP }))
}

/// Appends the record of `g`.
fn put_record<
    S: Fn(Single) -> Single + Copy,
    T: Fn(Single) -> Single + Copy,
    O: Fn(Single) -> Single + Copy,
    B: Fn(Single) -> u8 + Copy,
    N: Fn([Single; 4]) -> Single + Copy,
    D: Fn(Single, Single) -> Single + Copy,
    R: Fn(Single) -> Single + Copy,
    W: Fn(Single) -> u8 + Copy,
>(
    scale: S,
    tone: T,
    coverage: O,
    byte: B,
    norm: N,
    divide: D,
    stretch: R,
    whole: W,
    g: &Gaussian3D<Single>,
    out: &mut Vec<u8>,
)
    requires
        forall|v: Single| call_requires(scale, (v,)),
        forall|v: Single| call_requires(tone, (v,)),
        forall|v: Single| call_requires(coverage, (v,)),
        forall|v: Single| call_requires(byte, (v,)),
        forall|q: [Single; 4]| call_requires(norm, (q,)),
        forall|a: Single, b: Single| call_requires(divide, (a, b)),
        forall|v: Single| call_requires(stretch, (v,)),
        forall|v: Single| call_requires(whole, (v,)),
    ensures
        final(out).len() == old(out).len() + SPLAT_BYTES,
        final(out)@.take(old(out).len() as int) == old(out)@,
        is_record(
            scale,
            tone,
            coverage,
            byte,
            norm,
            divide,
            stretch,
            whole,
            *g,
            final(out)@.skip(old(out).len() as int),
        ),
{
    let ghost before = out@;
    let s = [scale(g.log_scale[0]), scale(g.log_scale[1]), scale(g.log_scale[2])];
    let c = [
        encode(tone, byte, g.sh_coeffs[0]),
        encode(tone, byte, g.sh_coeffs[16]),
        encode(tone, byte, g.sh_coeffs[32]),
        encode(coverage, byte, g.opacity_logit),
    ];
    let u = normalize(norm, divide, g.rotation);
    let q = [
        pack(stretch, whole, u[0]),
        pack(stretch, whole, u[1]),
        pack(stretch, whole, u[2]),
        pack(stretch, whole, u[3]),
    ];
    put_single(out, g.position[0]);
    put_single(out, g.position[1]);
    put_single(out, g.position[2]);
    put_single(out, s[0]);
    put_single(out, s[1]);
    put_single(out, s[2]);
    out.push(c[0]);
    out.push(c[1]);
    out.push(c[2]);
    out.push(c[3]);
    out.push(q[0]);
    out.push(q[1]);
    out.push(q[2]);
    out.push(q[3]);
    proof {
        let b = triple(g.position) + triple(s) + c@ + q@;
        assert(scaled(scale, g.log_scale, s));
        assert(colored(tone, coverage, byte, *g, c));
        assert(packed(norm, divide, stretch, whole, g.rotation, q));
        assert(out@ =~= before + b);
        assert(out@.take(before.len() as int) =~= before);
        assert(out@.skip(before.len() as int) =~= b);
    }
}

/// The bytes of the `.splat` file for `gaussians`.
pub fn save_splat<
    S: Fn(Single) -> Single + Copy,
    T: Fn(Single) -> Single + Copy,
    O: Fn(Single) -> Single + Copy,
    B: Fn(Single) -> u8 + Copy,
    N: Fn([Single; 4]) -> Single + Copy,
    D: Fn(Single, Single) -> Single + Copy,
    R: Fn(Single) -> Single + Copy,
    W: Fn(Single) -> u8 + Copy,
>(
    scale: S,
    tone: T,
    coverage: O,
    byte: B,
    norm: N,
    divide: D,
    stretch: R,
    whole: W,
    gaussians: &[Gaussian3D<Single>],
) -> (r: Vec<u8>)
    requires
        forall|v: Single| call_requires(scale, (v,)),
        forall|v: Single| call_requires(tone, (v,)),
        forall|v: Single| call_requires(coverage, (v,)),
        forall|v: Single| call_requires(byte, (v,)),
        forall|q: [Single; 4]| call_requires(norm, (q,)),
        forall|a: Single, b: Single| call_requires(divide, (a, b)),
        forall|v: Single| call_requires(stretch, (v,)),
        forall|v: Single| call_requires(whole, (v,)),
    ensures
        r.len() == SPLAT_BYTES * gaussians.len(),
        forall|i: int|
            0 <= i < gaussians.len() ==> is_record(
                scale,
                tone,
                coverage,
                byte,
                norm,
                divide,
                stretch,
                whole,
                #[trigger] gaussians[i],
                r@.subrange(SPLAT_BYTES * i, SPLAT_BYTES * i + SPLAT_BYTES),
            ),
{
    let mut out: Vec<u8> = Vec::new();
    for n in 0..gaussians.len()
        invariant
            forall|v: Single| call_requires(scale, (v,)),
            forall|v: Single| call_requires(tone, (v,)),
            forall|v: Single| call_requires(coverage, (v,)),
            forall|v: Single| call_requires(byte, (v,)),
            forall|q: [Single; 4]| call_requires(norm, (q,)),
            forall|a: Single, b: Single| call_requires(divide, (a, b)),
            forall|v: Single| call_requires(stretch, (v,)),
            forall|v: Single| call_requires(whole, (v,)),
            out.len() == SPLAT_BYTES * n,
            forall|i: int|
                0 <= i < n ==> is_record(
                    scale,
                    tone,
                    coverage,
                    byte,
                    norm,
                    divide,
                    stretch,
                    whole,
                    #[trigger] gaussians[i],
                    out@.subrange(SPLAT_BYTES * i, SPLAT_BYTES * i + SPLAT_BYTES),
                ),
    {
        let ghost before = out@;
        put_record(scale, tone, coverage, byte, norm, divide, stretch, whole, &gaussians[n], &mut out);
        proof {
            assert forall|i: int| 0 <= i < n + 1 implies is_record(
                scale,
                tone,
                coverage,
                byte,
                norm,
                divide,
                stretch,
                whole,
                #[trigger] gaussians[i],
                out@.subrange(SPLAT_BYTES * i, SPLAT_BYTES * i + SPLAT_BYTES),
            ) by {
                let (lo, hi) = (SPLAT_BYTES * i, SPLAT_BYTES * i + SPLAT_BYTES);
                if i < n {
                    assert(out@.take(before.len() as int).subrange(lo, hi) =~= out@.subrange(
                        lo,
                        hi,
                    ));
                } else {
                    assert(out@.subrange(lo, hi) =~= out@.skip(before.len() as int));
                }
            }
        }
    }
    out
}

} // verus!
