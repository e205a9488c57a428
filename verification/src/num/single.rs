//! IEEE 754 binary32 and binary64 values as bit patterns.
//!
//! A pattern is read as a sign and a magnitude.  Order, negation and the conversions
//! between the two widths are integer arithmetic on those two parts.

use vstd::arithmetic::power2::{
    lemma_pow2_adds, lemma_pow2_pos, lemma_pow2_strictly_increases, lemma_pow2_unfold, pow2,
};
use vstd::prelude::*;

verus! {

/// A binary32 value, given by its bit pattern.
#[derive(Clone, Copy, Debug, PartialEq, Eq, Structural)]
pub struct Single {
    pub bits: u32,
}

/// A binary64 value, given by its bit pattern.
#[derive(Clone, Copy, Debug, PartialEq, Eq, Structural)]
pub struct Double {
    pub bits: u64,
}

/// The pattern of `0.0`.
pub const ZERO: u32 = 0;

/// The pattern of `1.0`.
pub const ONE: u32 = 0x3F80_0000;

/// The magnitude pattern of infinity.  Larger magnitudes are not numbers.
pub const INFINITE: u32 = 0x7F80_0000;

/// The magnitude pattern of infinity in binary64.
pub const DOUBLE_INFINITE: u64 = 0x7FF0_0000_0000_0000;

/// The number that the magnitude pattern `mag` stands for, in units of the least
/// positive number, where a fraction has `width` bits.  For infinity this is the number
/// that would follow the greatest finite one if the exponent range went on.
pub open spec fn magnitude(mag: int, width: nat) -> int {
    let fraction = mag % (pow2(width) as int);
    let exponent = mag / (pow2(width) as int);
    if exponent == 0 {
        fraction
    } else {
        (pow2(width) + fraction) * pow2((exponent - 1) as nat)
    }
}

impl Single {
    pub open spec fn mag(self) -> int {
        self.bits as int % 0x8000_0000
    }

    pub open spec fn negative(self) -> bool {
        self.bits >= 0x8000_0000
    }

    pub open spec fn nan(self) -> bool {
        self.mag() > INFINITE
    }

    /// The value in units of `2^-149`.
    pub open spec fn value(self) -> int {
        if self.negative() {
            -magnitude(self.mag(), 23)
        } else {
            magnitude(self.mag(), 23)
        }
    }

    /// Sign and magnitude pattern as one integer; it orders the numbers as their values do.
    pub open spec fn rank(self) -> int {
        if self.negative() {
            -self.mag()
        } else {
            self.mag()
        }
    }
}

impl Double {
    pub open spec fn mag(self) -> int {
        self.bits as int % 0x8000_0000_0000_0000
    }

    pub open spec fn negative(self) -> bool {
        self.bits >= 0x8000_0000_0000_0000
    }

    pub open spec fn nan(self) -> bool {
        self.mag() > DOUBLE_INFINITE
    }

    /// The value in units of `2^-1074`.
    pub open spec fn value(self) -> int {
        if self.negative() {
            -magnitude(self.mag(), 52)
        } else {
            magnitude(self.mag(), 52)
        }
    }

    /// Sign and magnitude pattern as one integer.
    pub open spec fn rank(self) -> int {
        if self.negative() {
            -self.mag()
        } else {
            self.mag()
        }
    }
}

// ── magnitudes ──────────────────────────────────────────────────────────────────────────

/// A pattern written as a binade and a significand has the significand's value, scaled.
pub proof fn lemma_magnitude_scaled(width: nat, k: nat, q: int)
    requires
        k == 0 ==> 0 <= q <= 2 * pow2(width),
        k > 0 ==> pow2(width) <= q <= 2 * pow2(width),
    ensures
        magnitude(k * pow2(width) + q, width) == q * pow2(k),
{
    let w = pow2(width) as int;
    lemma_pow2_pos(width);
    lemma_pow2_unfold(k + 1);
    vstd::arithmetic::power2::lemma2_to64();
    let mag = k * w + q;
    if q < w {
        assert(k == 0);
        assert(mag / w == 0 && mag % w == q) by (nonlinear_arith)
            requires
                mag == q,
                0 <= q < w,
        ;
        assert(q * pow2(0) == q) by (nonlinear_arith)
            requires
                pow2(0) == 1,
        ;
    } else if q < 2 * w {
        let f = q - w;
        assert(mag / w == k + 1 && mag % w == f) by (nonlinear_arith)
            requires
                mag == k * w + w + f,
                0 <= f < w,
        ;
        assert((w + f) * pow2(k) == q * pow2(k));
    } else {
        assert(mag / w == k + 2 && mag % w == 0) by (nonlinear_arith)
            requires
                mag == k * w + 2 * w,
                w > 0,
        ;
        assert(w * pow2((k + 1) as nat) == q * pow2(k)) by (nonlinear_arith)
            requires
                pow2((k + 1) as nat) == 2 * pow2(k),
                q == 2 * w,
        ;
    }
}

/// Greater patterns stand for greater numbers.
pub proof fn lemma_magnitude_increases(a: int, b: int, width: nat)
    requires
        0 <= a < b,
    ensures
        magnitude(a, width) < magnitude(b, width),
{
    let w = pow2(width) as int;
    lemma_pow2_pos(width);
    let (ea, fa) = (a / w, a % w);
    let (eb, fb) = (b / w, b % w);
    assert(a == ea * w + fa && 0 <= fa < w && ea >= 0) by (nonlinear_arith)
        requires
            ea == a / w,
            fa == a % w,
            w > 0,
            a >= 0,
    ;
    assert(b == eb * w + fb && 0 <= fb < w && eb >= 0) by (nonlinear_arith)
        requires
            eb == b / w,
            fb == b % w,
            w > 0,
            b >= 0,
    ;
    assert(ea <= eb) by (nonlinear_arith)
        requires
            a == ea * w + fa,
            b == eb * w + fb,
            a < b,
            0 <= fa < w,
            0 <= fb < w,
    ;
    if ea == eb {
        if ea > 0 {
            let p = pow2((ea - 1) as nat) as int;
            lemma_pow2_pos((ea - 1) as nat);
            assert((w + fa) * p < (w + fb) * p) by (nonlinear_arith)
                requires
                    fa < fb,
                    p > 0,
            ;
        }
    } else {
        let p = pow2((eb - 1) as nat) as int;
        lemma_pow2_pos((eb - 1) as nat);
        if ea == 0 {
            assert(fa < (w + fb) * p) by (nonlinear_arith)
                requires
                    0 <= fa < w,
                    fb >= 0,
                    p >= 1,
            ;
        } else {
            let r = pow2((ea - 1) as nat) as int;
            lemma_pow2_pos((ea - 1) as nat);
            lemma_pow2_unfold(ea as nat);
            if ea < eb - 1 {
                lemma_pow2_strictly_increases(ea as nat, (eb - 1) as nat);
            }
            assert(p >= 2 * r);
            assert((w + fa) * r < (w + fb) * p) by (nonlinear_arith)
                requires
                    0 <= fa < w,
                    fb >= 0,
                    r > 0,
                    p >= 2 * r,
            ;
        }
    }
}

pub proof fn lemma_magnitude_nonnegative(a: int, width: nat)
    requires
        0 <= a,
    ensures
        magnitude(a, width) >= 0,
        magnitude(0, width) == 0,
        a > 0 ==> magnitude(a, width) > 0,
{
    lemma_pow2_pos(width);
    let w = pow2(width) as int;
    assert(0int % w == 0 && 0int / w == 0) by (nonlinear_arith)
        requires
            w > 0,
    ;
    if a > 0 {
        lemma_magnitude_increases(0, a, width);
    }
}

/// The rank of a binary32 pattern orders it as its value does.
pub proof fn lemma_rank_is_order(a: Single, b: Single)
    ensures
        a.rank() < b.rank() <==> a.value() < b.value(),
        a.rank() == b.rank() <==> a.value() == b.value(),
{
    lemma_signed_order(a.mag(), b.mag(), 23);
}

/// The rank of a binary64 pattern orders it as its value does.
pub proof fn lemma_double_rank_is_order(a: Double, b: Double)
    ensures
        a.rank() < b.rank() <==> a.value() < b.value(),
        a.rank() == b.rank() <==> a.value() == b.value(),
{
    lemma_signed_order(a.mag(), b.mag(), 52);
}

proof fn lemma_signed_order(a: int, b: int, width: nat)
    requires
        0 <= a,
        0 <= b,
    ensures
        a < b <==> magnitude(a, width) < magnitude(b, width),
        a == b <==> magnitude(a, width) == magnitude(b, width),
        magnitude(a, width) >= 0,
        magnitude(b, width) >= 0,
        a == 0 <==> magnitude(a, width) == 0,
        b == 0 <==> magnitude(b, width) == 0,
{
    lemma_magnitude_nonnegative(a, width);
    lemma_magnitude_nonnegative(b, width);
    if a < b {
        lemma_magnitude_increases(a, b, width);
    } else if b < a {
        lemma_magnitude_increases(b, a, width);
    }
}

// ── order ───────────────────────────────────────────────────────────────────────────────

impl Single {
    pub fn is_nan(self) -> (r: bool)
        ensures
            r == self.nan(),
    {
        self.bits % 0x8000_0000 > INFINITE
    }

    /// [`Single::rank`] as a machine integer.
    pub fn signed(self) -> (r: i64)
        ensures
            r == self.rank(),
    {
        let mag: i64 = (self.bits % 0x8000_0000) as i64;
        if self.bits >= 0x8000_0000 {
            -mag
        } else {
            mag
        }
    }

    /// `self < other`, as IEEE compares: false where either is not a number.
    pub open spec fn below(self, other: Single) -> bool {
        !self.nan() && !other.nan() && self.value() < other.value()
    }

    /// `self <= other`, as IEEE compares.
    pub open spec fn at_most(self, other: Single) -> bool {
        !self.nan() && !other.nan() && self.value() <= other.value()
    }

    pub fn lt(self, other: Single) -> (r: bool)
        ensures
            r == self.below(other),
    {
        proof {
            lemma_rank_is_order(self, other);
        }
        !self.is_nan() && !other.is_nan() && self.signed() < other.signed()
    }

    pub fn le(self, other: Single) -> (r: bool)
        ensures
            r == self.at_most(other),
    {
        proof {
            lemma_rank_is_order(self, other);
        }
        !self.is_nan() && !other.is_nan() && self.signed() <= other.signed()
    }

    /// The pattern without its sign.
    pub open spec fn unsigned(self) -> Single {
        Single { bits: self.bits % 0x8000_0000 }
    }

    /// The absolute value.
    pub fn abs(self) -> (r: Single)
        ensures
            r == self.unsigned(),
    {
        Single { bits: self.bits % 0x8000_0000 }
    }

    /// The pattern with the other sign.
    pub open spec fn negated(self) -> Single {
        Single {
            bits: if self.bits >= 0x8000_0000 {
                (self.bits - 0x8000_0000) as u32
            } else {
                (self.bits + 0x8000_0000) as u32
            },
        }
    }

    /// `-self`: the sign changes, whatever the magnitude is.
    pub fn neg(self) -> (r: Single)
        ensures
            r == self.negated(),
    {
        if self.bits >= 0x8000_0000 {
            Single { bits: self.bits - 0x8000_0000 }
        } else {
            Single { bits: self.bits + 0x8000_0000 }
        }
    }
}

/// Changing the sign twice gives the pattern back, and negates the value.
pub proof fn lemma_negation_is_an_involution(x: Single)
    ensures
        x.negated().negated() == x,
        x.negated().value() == -x.value(),
        x.negated().nan() == x.nan(),
        x.negated().unsigned() == x.unsigned(),
{
}

impl Double {
    pub fn is_nan(self) -> (r: bool)
        ensures
            r == self.nan(),
    {
        self.bits % 0x8000_0000_0000_0000 > DOUBLE_INFINITE
    }

    /// [`Double::rank`] as a machine integer.
    pub fn signed(self) -> (r: i64)
        ensures
            r == self.rank(),
    {
        let mag: i64 = (self.bits % 0x8000_0000_0000_0000) as i64;
        if self.bits >= 0x8000_0000_0000_0000 {
            -mag
        } else {
            mag
        }
    }
}

// ── conversion ──────────────────────────────────────────────────────────────────────────

/// `mag` is the binary32 magnitude nearest to `v`, which counts units of `2^-1074`; of two
/// that are equally near it is the even one.  `2^925` such units make one of `2^-149`.
pub open spec fn nearest_magnitude(v: int, mag: int) -> bool {
    let unit = pow2(925) as int;
    &&& 0 <= mag <= INFINITE
    &&& mag > 0 ==> {
        let below = (magnitude(mag - 1, 23) + magnitude(mag, 23)) * unit;
        below < 2 * v || (below == 2 * v && mag % 2 == 0)
    }
    &&& mag < INFINITE ==> {
        let above = (magnitude(mag, 23) + magnitude(mag + 1, 23)) * unit;
        2 * v < above || (2 * v == above && mag % 2 == 0)
    }
}

/// `s` is what `d` becomes when it is stored with binary32 precision: the sign stays, a
/// number goes to the nearest one (ties to even, infinity past the greatest), and
/// what is not a number stays so.
pub open spec fn narrows_to(d: Double, s: Single) -> bool {
    &&& s.negative() == d.negative()
    &&& d.nan() ==> s.nan()
    &&& !d.nan() && d.mag() == DOUBLE_INFINITE ==> s.mag() == INFINITE
    &&& d.mag() < DOUBLE_INFINITE ==> nearest_magnitude(magnitude(d.mag(), 52), s.mag())
}

/// At most one magnitude is nearest.
pub proof fn lemma_nearest_is_unique(v: int, a: int, b: int)
    requires
        nearest_magnitude(v, a),
        nearest_magnitude(v, b),
    ensures
        a == b,
{
    lemma_nearest_orders(v, a, b);
    lemma_nearest_orders(v, b, a);
}

proof fn lemma_nearest_orders(v: int, a: int, b: int)
    requires
        nearest_magnitude(v, a),
        nearest_magnitude(v, b),
    ensures
        a >= b,
{
    let unit = pow2(925) as int;
    lemma_pow2_pos(925);
    if a + 1 < b {
        let above = magnitude(a, 23) + magnitude(a + 1, 23);
        let below = magnitude(b - 1, 23) + magnitude(b, 23);
        lemma_magnitude_increases(a, b - 1, 23);
        lemma_magnitude_increases(a + 1, b, 23);
        assert(above * unit < below * unit) by (nonlinear_arith)
            requires
                above < below,
                unit > 0,
        ;
    }
}

/// `m / unit`, rounded to the nearest integer, ties to the even one.
pub open spec fn half_even(m: int, unit: int) -> int {
    let q = m / unit;
    let r = m % unit;
    if 2 * r > unit || (2 * r == unit && q % 2 == 1) {
        q + 1
    } else {
        q
    }
}

/// The binary32 magnitude pattern for the binary64 magnitude pattern `mag`.
pub open spec fn narrowed_mag(mag: int) -> int {
    let e = mag / 0x10_0000_0000_0000;
    let f = mag % 0x10_0000_0000_0000;
    if e >= 2047 {
        if f == 0 {
            INFINITE as int
        } else {
            INFINITE + 0x40_0000 + (f / 0x2000_0000) % 0x40_0000
        }
    } else if e >= 1151 {
        INFINITE as int
    } else if e >= 897 {
        (e - 897) * 0x80_0000 + half_even(0x10_0000_0000_0000 + f, 0x2000_0000)
    } else if e >= 1 {
        half_even(0x10_0000_0000_0000 + f, pow2((926 - e) as nat) as int)
    } else {
        half_even(f, pow2(925) as int)
    }
}

impl Double {
    /// The binary32 pattern that [`Double::narrow`] gives.
    pub open spec fn narrowed(self) -> Single {
        let mag = narrowed_mag(self.mag());
        Single {
            bits: if self.negative() {
                (0x8000_0000 + mag) as u32
            } else {
                mag as u32
            },
        }
    }
}

proof fn lemma_half_even_bounds(m: int, unit: int)
    requires
        m >= 0,
        unit > 0,
    ensures
        ({
            let q = half_even(m, unit);
            &&& q >= 0
            &&& (2 * q - 1) * unit <= 2 * m <= (2 * q + 1) * unit
            &&& 2 * m == (2 * q - 1) * unit ==> q % 2 == 0
            &&& 2 * m == (2 * q + 1) * unit ==> q % 2 == 0
            &&& q >= m / unit
            &&& q <= m / unit + 1
            &&& q > m / unit ==> 2 * m >= (2 * (m / unit) + 1) * unit
        }),
{
    let d = m / unit;
    let r = m % unit;
    assert(m == d * unit + r && 0 <= r < unit && d >= 0) by (nonlinear_arith)
        requires
            d == m / unit,
            r == m % unit,
            unit > 0,
            m >= 0,
    ;
    let q = half_even(m, unit);
    assert((2 * q - 1) * unit == 2 * (q * unit) - unit) by (nonlinear_arith);
    assert((2 * q + 1) * unit == 2 * (q * unit) + unit) by (nonlinear_arith);
    assert((2 * d + 1) * unit == 2 * (d * unit) + unit) by (nonlinear_arith);
    if q == d + 1 {
        assert(q * unit == d * unit + unit) by (nonlinear_arith)
            requires
                q == d + 1,
        ;
    }
}

/// Rounding a significand within a binade gives the nearest magnitude.
proof fn lemma_rounded_is_nearest(m: int, unit: int, c: int, k: nat)
    requires
        0 <= m,
        unit > 0,
        c > 0,
        unit * c == pow2(k) * pow2(925),
        m < 0x100_0000 * unit,
        k > 0 ==> m >= 0x80_0000 * unit,
        k <= 253,
    ensures
        ({
            let q = half_even(m, unit);
            &&& k == 0 ==> 0 <= q <= 0x100_0000
            &&& k > 0 ==> 0x80_0000 <= q <= 0x100_0000
            &&& nearest_magnitude(m * c, k * 0x80_0000 + q)
        }),
{
    lemma_half_even_bounds(m, unit);
    lemma_2_to_23();
    let q = half_even(m, unit);
    let d = m / unit;
    assert(d < 0x100_0000) by (nonlinear_arith)
        requires
            d == m / unit,
            m < 0x100_0000 * unit,
            unit > 0,
    ;
    if k > 0 {
        assert(d >= 0x80_0000) by (nonlinear_arith)
            requires
                d == m / unit,
                m >= 0x80_0000 * unit,
                unit > 0,
        ;
    }
    let mag = k * 0x80_0000 + q;
    let p = pow2(k) as int;
    let big = pow2(925) as int;
    lemma_pow2_pos(k);
    lemma_pow2_pos(925);
    lemma_magnitude_scaled(23, k, q);
    assert(magnitude(mag, 23) == q * p);
    assert(mag % 2 == q % 2);
    let v = m * c;
    let u = unit * c;
    assert(u == p * big);
    // The midpoints, in units of `2^-1074`.
    assert(2 * v <= (2 * q + 1) * u && (2 * q - 1) * u <= 2 * v && (2 * v == (2 * q + 1) * u
        ==> q % 2 == 0) && (2 * v == (2 * q - 1) * u ==> q % 2 == 0)) by {
        assert(2 * v == (2 * m) * c) by (nonlinear_arith)
            requires
                v == m * c,
        ;
        assert((2 * q + 1) * u == ((2 * q + 1) * unit) * c) by (nonlinear_arith)
            requires
                u == unit * c,
        ;
        assert((2 * q - 1) * u == ((2 * q - 1) * unit) * c) by (nonlinear_arith)
            requires
                u == unit * c,
        ;
        let hi = (2 * q + 1) * unit;
        let lo = (2 * q - 1) * unit;
        assert((2 * m) * c <= hi * c && lo * c <= (2 * m) * c) by (nonlinear_arith)
            requires
                lo <= 2 * m <= hi,
                c > 0,
        ;
        assert((2 * m) * c == hi * c ==> 2 * m == hi) by (nonlinear_arith)
            requires
                c > 0,
        ;
        assert((2 * m) * c == lo * c ==> 2 * m == lo) by (nonlinear_arith)
            requires
                c > 0,
        ;
    }
    // The neighbour above.
    if mag < INFINITE {
        let above = (magnitude(mag, 23) + magnitude(mag + 1, 23)) * big;
        if q < 0x100_0000 {
            lemma_magnitude_scaled(23, k, q + 1);
            assert(mag + 1 == k * 0x80_0000 + (q + 1));
            assert(above == (2 * q + 1) * u) by (nonlinear_arith)
                requires
                    above == (q * p + (q + 1) * p) * big,
                    u == p * big,
            ;
        } else {
            lemma_magnitude_increases(mag, mag + 1, 23);
            assert(v < q * u) by (nonlinear_arith)
                requires
                    m < q * unit,
                    c > 0,
                    v == m * c,
                    u == unit * c,
            ;
            let x = magnitude(mag + 1, 23);
            assert(above > 2 * (q * u)) by (nonlinear_arith)
                requires
                    above == (q * p + x) * big,
                    x > q * p,
                    u == p * big,
                    big > 0,
            ;
        }
    }
    // The neighbour below.
    if mag > 0 {
        let below = (magnitude(mag - 1, 23) + magnitude(mag, 23)) * big;
        if k == 0 || q > 0x80_0000 {
            lemma_magnitude_scaled(23, k, q - 1);
            assert(mag - 1 == k * 0x80_0000 + (q - 1));
            assert(below == (2 * q - 1) * u) by (nonlinear_arith)
                requires
                    below == ((q - 1) * p + q * p) * big,
                    u == p * big,
            ;
        } else {
            lemma_magnitude_increases(mag - 1, mag, 23);
            let x = magnitude(mag - 1, 23);
            assert(v >= q * u) by (nonlinear_arith)
                requires
                    m >= q * unit,
                    c > 0,
                    v == m * c,
                    u == unit * c,
            ;
            assert(below < 2 * (q * u)) by (nonlinear_arith)
                requires
                    below == (x + q * p) * big,
                    x < q * p,
                    u == p * big,
                    big > 0,
            ;
        }
    }
    assert(mag <= INFINITE);
}

proof fn lemma_2_to_23()
    ensures
        pow2(23) == 0x80_0000,
        pow2(52) == 0x10_0000_0000_0000,
        pow2(29) == 0x2000_0000,
        pow2(0) == 1,
{
    vstd::arithmetic::power2::lemma2_to64();
    vstd::arithmetic::power2::lemma2_to64_rest();
}

/// From `2^128` on, nothing is nearer than infinity.
proof fn lemma_huge_is_infinite(mag: int)
    requires
        1151 <= mag / 0x10_0000_0000_0000,
    ensures
        nearest_magnitude(magnitude(mag, 52), INFINITE as int),
{
    let e = mag / 0x10_0000_0000_0000;
    let f = mag % 0x10_0000_0000_0000;
    lemma_2_to_23();
    let v = magnitude(mag, 52);
    let big = pow2(925) as int;
    lemma_pow2_pos(925);
    lemma_magnitude_scaled(23, 254, 0x80_0000);
    assert(254 * 0x80_0000 + 0x80_0000 == INFINITE);
    let top = magnitude(INFINITE as int, 23);
    assert(top == 0x80_0000 * pow2(254));
    lemma_magnitude_increases(INFINITE - 1, INFINITE as int, 23);
    let p = pow2((e - 1) as nat) as int;
    assert(v == (0x10_0000_0000_0000 + f) * p);
    assert(v >= 0x10_0000_0000_0000 * p) by (nonlinear_arith)
        requires
            v == (0x10_0000_0000_0000 + f) * p,
            f >= 0,
            p >= 0,
    ;
    if e > 1151 {
        lemma_pow2_strictly_increases(1150, (e - 1) as nat);
    }
    lemma_pow2_adds(225, 925);
    lemma_pow2_adds(29, 225);
    let low = pow2(1150) as int;
    assert(0x10_0000_0000_0000 * low == top * big) by (nonlinear_arith)
        requires
            low == pow2(225) * big,
            pow2(254) == 0x2000_0000 * pow2(225),
            top == 0x80_0000 * pow2(254),
    ;
    let x = magnitude(INFINITE - 1, 23);
    assert((x + top) * big < 2 * v) by (nonlinear_arith)
        requires
            x < top,
            big > 0,
            v >= 0x10_0000_0000_0000 * p,
            p >= low,
            0x10_0000_0000_0000 * low == top * big,
    ;
}

/// In the range of normal binary32 numbers, 29 bits of the significand are rounded off.
proof fn lemma_normal_is_nearest(mag: int)
    requires
        897 <= mag / 0x10_0000_0000_0000 < 1151,
    ensures
        nearest_magnitude(magnitude(mag, 52), narrowed_mag(mag)),
{
    let e = mag / 0x10_0000_0000_0000;
    let f = mag % 0x10_0000_0000_0000;
    lemma_2_to_23();
    let k = (e - 897) as nat;
    let c = pow2((e - 1) as nat) as int;
    lemma_pow2_pos((e - 1) as nat);
    lemma_pow2_adds(29, (e - 1) as nat);
    lemma_pow2_adds(k, 925);
    assert(29 + (e - 1) == k + 925);
    lemma_rounded_is_nearest(0x10_0000_0000_0000 + f, 0x2000_0000, c, k);
}

/// Below that range, more bits are rounded off.
proof fn lemma_subnormal_is_nearest(mag: int)
    requires
        0 <= mag,
        mag / 0x10_0000_0000_0000 < 897,
    ensures
        nearest_magnitude(magnitude(mag, 52), narrowed_mag(mag)),
{
    let e = mag / 0x10_0000_0000_0000;
    let f = mag % 0x10_0000_0000_0000;
    lemma_2_to_23();
    lemma_pow2_pos(925);
    let big = pow2(925) as int;
    assert(big == pow2(0) * pow2(925));
    if e >= 1 {
        let unit = pow2((926 - e) as nat) as int;
        let c = pow2((e - 1) as nat) as int;
        lemma_pow2_pos((926 - e) as nat);
        lemma_pow2_pos((e - 1) as nat);
        lemma_pow2_adds((926 - e) as nat, (e - 1) as nat);
        vstd::arithmetic::power2::lemma2_to64();
        if e < 896 {
            lemma_pow2_strictly_increases(30, (926 - e) as nat);
        }
        lemma_rounded_is_nearest(0x10_0000_0000_0000 + f, unit, c, 0);
    } else {
        lemma_pow2_strictly_increases(52, 925);
        assert(big * 1 == pow2(0) * pow2(925));
        lemma_rounded_is_nearest(f, big, 1, 0);
    }
}

/// Narrowing rounds to nearest, keeps the sign and keeps what is not a number.
pub proof fn lemma_narrowed(d: Double)
    ensures
        0 <= narrowed_mag(d.mag()) < 0x8000_0000,
        narrows_to(d, d.narrowed()),
{
    let mag = d.mag();
    let e = mag / 0x10_0000_0000_0000;
    let f = mag % 0x10_0000_0000_0000;
    if e >= 2047 {
        assert(0 <= (f / 0x2000_0000) % 0x40_0000 < 0x40_0000);
    } else if e >= 1151 {
        lemma_huge_is_infinite(mag);
    } else if e >= 897 {
        lemma_normal_is_nearest(mag);
    } else {
        lemma_subnormal_is_nearest(mag);
    }
}

fn power_of_two(k: u32) -> (r: u64)
    requires
        k <= 62,
    ensures
        r == pow2(k as nat),
        0 < r <= 0x4000_0000_0000_0000,
{
    let mut r: u64 = 1;
    proof {
        lemma_2_to_23();
    }
    for i in 0..k
        invariant
            k <= 62,
            r == pow2(i as nat),
            0 < r <= 0x4000_0000_0000_0000,
    {
        proof {
            lemma_pow2_unfold((i + 1) as nat);
            vstd::arithmetic::power2::lemma2_to64_rest();
            if i < 61 {
                lemma_pow2_strictly_increases(i as nat, 61);
            }
        }
        r = r * 2;
    }
    r
}

fn round_half_even(m: u64, unit: u64) -> (r: u64)
    requires
        0 < unit <= 0x4000_0000_0000_0000,
        m < 0x4000_0000_0000_0000,
    ensures
        r == half_even(m as int, unit as int),
{
    let q: u64 = m / unit;
    let rest: u64 = m % unit;
    assert(q <= m) by (nonlinear_arith)
        requires
            q == m / unit,
            unit > 0,
    ;
    if 2 * rest > unit || (2 * rest == unit && q % 2 == 1) {
        q + 1
    } else {
        q
    }
}

impl Double {
    /// The value with binary32 precision: rounded to nearest, ties to even.
    pub fn narrow(self) -> (r: Single)
        ensures
            r == self.narrowed(),
            narrows_to(self, r),
    {
        proof {
            lemma_narrowed(self);
            lemma_2_to_23();
        }
        let mag: u64 = self.bits % 0x8000_0000_0000_0000;
        let e: u64 = mag / 0x10_0000_0000_0000;
        let f: u64 = mag % 0x10_0000_0000_0000;
        let low: u64 = if e >= 2047 {
            if f == 0 {
                INFINITE as u64
            } else {
                INFINITE as u64 + 0x40_0000 + (f / 0x2000_0000) % 0x40_0000
            }
        } else if e >= 1151 {
            INFINITE as u64
        } else if e >= 897 {
            (e - 897) * 0x80_0000 + round_half_even(0x10_0000_0000_0000 + f, 0x2000_0000)
        } else if e >= 866 {
            round_half_even(0x10_0000_0000_0000 + f, power_of_two((926 - e) as u32))
        } else {
            proof {
                // The significand is below half a unit.
                if e >= 1 {
                    lemma_half_of_large_unit(0x10_0000_0000_0000 + f as int, (926 - e) as nat);
                } else {
                    lemma_half_of_large_unit(f as int, 925);
                }
            }
            0
        };
        if self.bits >= 0x8000_0000_0000_0000 {
            Single { bits: 0x8000_0000 + low as u32 }
        } else {
            Single { bits: low as u32 }
        }
    }
}

proof fn lemma_half_of_large_unit(m: int, k: nat)
    requires
        0 <= m < 0x20_0000_0000_0000,
        k >= 61,
    ensures
        half_even(m, pow2(k) as int) == 0,
{
    vstd::arithmetic::power2::lemma2_to64_rest();
    if k > 61 {
        lemma_pow2_strictly_increases(61, k);
    }
    let unit = pow2(k) as int;
    assert(m / unit == 0 && m % unit == m) by (nonlinear_arith)
        requires
            0 <= m < unit,
    ;
}

impl Single {
    /// `n` as a binary32 value; every such `n` has one.
    pub fn from_u16(n: u16) -> (r: Single)
        ensures
            r.value() == n * pow2(149),
            !r.negative(),
            r.mag() < INFINITE,
            r == small_integer(n as nat),
    {
        proof {
            lemma_small_integer(n as nat);
        }
        if n == 0 {
            return Single { bits: 0 };
        }
        let mut q: u32 = n as u32;
        let mut exponent: u32 = 149;
        proof {
            lemma_2_to_23();
        }
        while q < 0x80_0000
            invariant
                0 < q < 0x100_0000,
                126 <= exponent <= 149,
                q >= pow2((149 - exponent) as nat),
                small_integer_of(q as int, exponent as int) == small_integer_of(n as int, 149),
            decreases 0x100_0000 - q,
        {
            proof {
                lemma_2_to_23();
                lemma_pow2_unfold((150 - exponent) as nat);
            }
            q = q * 2;
            exponent = exponent - 1;
        }
        Single { bits: exponent * 0x80_0000 + q }
    }
}

/// The magnitude pattern of `q * 2^(exponent - 149)`, for `q` below `2^24`.
pub open spec fn small_integer_of(q: int, exponent: int) -> int
    decreases 0x100_0000 - q,
{
    if q <= 0 || q >= 0x80_0000 {
        exponent * 0x80_0000 + q
    } else {
        small_integer_of(2 * q, exponent - 1)
    }
}

/// The binary32 pattern of the integer `n`.
pub open spec fn small_integer(n: nat) -> Single {
    if n == 0 {
        Single { bits: 0 }
    } else {
        Single { bits: small_integer_of(n as int, 149) as u32 }
    }
}

proof fn lemma_small_integer_of(q: int, exponent: int)
    requires
        126 <= exponent <= 149,
        pow2((149 - exponent) as nat) <= q < 0x100_0000,
    ensures
        magnitude(small_integer_of(q, exponent), 23) == q * pow2(exponent as nat),
        0 < small_integer_of(q, exponent) < INFINITE,
    decreases 0x100_0000 - q,
{
    lemma_2_to_23();
    lemma_pow2_pos((149 - exponent) as nat);
    if q >= 0x80_0000 {
        lemma_magnitude_scaled(23, exponent as nat, q);
    } else {
        assert(exponent > 126);
        lemma_pow2_unfold((150 - exponent) as nat);
        lemma_pow2_unfold(exponent as nat);
        lemma_small_integer_of(2 * q, exponent - 1);
        assert(2 * q * pow2((exponent - 1) as nat) == q * pow2(exponent as nat)) by (nonlinear_arith)
            requires
                pow2(exponent as nat) == 2 * pow2((exponent - 1) as nat),
        ;
    }
}

proof fn lemma_small_integer(n: nat)
    requires
        n < 0x100_0000,
    ensures
        small_integer(n).value() == n * pow2(149),
        !small_integer(n).negative(),
        small_integer(n).mag() < INFINITE,
{
    lemma_2_to_23();
    if n == 0 {
        lemma_magnitude_nonnegative(0, 23);
        assert(0 * pow2(149) == 0) by (nonlinear_arith);
    } else {
        lemma_small_integer_of(n as int, 149);
    }
}

} // verus!
