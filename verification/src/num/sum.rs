//! Sums of real numbers.

use vstd::prelude::*;

verus! {

/// `f(0) + f(1) + .. + f(n - 1)`.
pub open spec fn total(n: nat, f: spec_fn(int) -> real) -> real
    decreases n,
{
    if n == 0 {
        0real
    } else {
        total((n - 1) as nat, f) + f(n - 1)
    }
}

/// Equal summands give equal sums.
pub proof fn lemma_total_same(n: nat, f: spec_fn(int) -> real, g: spec_fn(int) -> real)
    requires
        forall|i: int| 0 <= i < n ==> #[trigger] f(i) == g(i),
    ensures
        total(n, f) == total(n, g),
    decreases n,
{
    if n > 0 {
        assert(f(n - 1) == g(n - 1));
        lemma_total_same((n - 1) as nat, f, g);
    }
}

/// Summands from `m` on that are zero add nothing.
pub proof fn lemma_total_ends(m: nat, n: nat, f: spec_fn(int) -> real)
    requires
        m <= n,
        forall|i: int| m <= i < n ==> #[trigger] f(i) == 0real,
    ensures
        total(n, f) == total(m, f),
    decreases n,
{
    if m < n {
        assert(f(n - 1) == 0real);
        lemma_total_ends(m, (n - 1) as nat, f);
    }
}

/// A sum falls into the sums of its two parts.
pub proof fn lemma_total_append(m: nat, n: nat, f: spec_fn(int) -> real)
    ensures
        total(m + n, f) == total(m, f) + total(n, |i: int| f(m + i)),
    decreases n,
{
    if n > 0 {
        lemma_total_append(m, (n - 1) as nat, f);
    }
}

/// The sums of two summands add.
pub proof fn lemma_total_plus(n: nat, f: spec_fn(int) -> real, g: spec_fn(int) -> real)
    ensures
        total(n, |i: int| f(i) + g(i)) == total(n, f) + total(n, g),
    decreases n,
{
    if n > 0 {
        lemma_total_plus((n - 1) as nat, f, g);
    }
}

/// A common factor comes out of a sum.
pub proof fn lemma_total_scaled(n: nat, c: real, f: spec_fn(int) -> real)
    ensures
        total(n, |i: int| c * f(i)) == c * total(n, f),
    decreases n,
{
    if n > 0 {
        lemma_total_scaled((n - 1) as nat, c, f);
        let (a, b) = (total((n - 1) as nat, f), f(n - 1));
        assert(c * (a + b) == c * a + c * b) by (nonlinear_arith);
    } else {
        assert(c * 0real == 0real) by (nonlinear_arith);
    }
}

/// The distance of `x` from zero.
pub open spec fn abs(x: real) -> real {
    if x < 0real {
        -x
    } else {
        x
    }
}

pub proof fn lemma_abs_product(a: real, b: real)
    ensures
        abs(a * b) == abs(a) * abs(b),
{
    if a < 0real && b < 0real {
        assert(a * b >= 0real && a * b == (-a) * (-b)) by (nonlinear_arith)
            requires
                a < 0real,
                b < 0real,
        ;
    } else if a < 0real {
        assert(a * b <= 0real && -(a * b) == (-a) * b) by (nonlinear_arith)
            requires
                a < 0real,
                b >= 0real,
        ;
    } else if b < 0real {
        assert(a * b <= 0real && -(a * b) == a * (-b)) by (nonlinear_arith)
            requires
                a >= 0real,
                b < 0real,
        ;
    } else {
        assert(a * b >= 0real) by (nonlinear_arith)
            requires
                a >= 0real,
                b >= 0real,
        ;
    }
}

/// A product is at most as far from zero as its bounds say.
pub proof fn lemma_abs_product_bounded(a: real, b: real, c: real)
    requires
        abs(b) <= c,
    ensures
        abs(a * b) <= abs(a) * c,
{
    lemma_abs_product(a, b);
    let (x, y) = (abs(a), abs(b));
    assert(x * y <= x * c) by (nonlinear_arith)
        requires
            0real <= x,
            y <= c,
    ;
}

/// A sum is at most as far from zero as its summands may be together.
pub proof fn lemma_total_bounded(n: nat, f: spec_fn(int) -> real, g: spec_fn(int) -> real)
    requires
        forall|i: int| 0 <= i < n ==> abs(#[trigger] f(i)) <= g(i),
    ensures
        abs(total(n, f)) <= total(n, g),
    decreases n,
{
    if n > 0 {
        assert(abs(f(n - 1)) <= g(n - 1));
        lemma_total_bounded((n - 1) as nat, f, g);
    }
}

/// More summands that are not negative make no smaller sum.
pub proof fn lemma_total_grows(m: nat, n: nat, f: spec_fn(int) -> real)
    requires
        m <= n,
        forall|i: int| 0 <= i < n ==> #[trigger] f(i) >= 0real,
    ensures
        0real <= total(m, f) <= total(n, f),
        forall|i: int| 0 <= i < n ==> #[trigger] f(i) <= total(n, f),
    decreases n,
{
    if n > 0 {
        assert(f(n - 1) >= 0real);
        lemma_total_grows(
            if m < n {
                m
            } else {
                (n - 1) as nat
            },
            (n - 1) as nat,
            f,
        );
    }
}

/// The sum of row `i` of a table with `n` columns.
pub open spec fn row_total(n: nat, g: spec_fn(int, int) -> real, i: int) -> real {
    total(n, |j: int| g(i, j))
}

/// The sum of column `j` of a table with `m` rows.
pub open spec fn column_total(m: nat, g: spec_fn(int, int) -> real, j: int) -> real {
    total(m, |i: int| g(i, j))
}

/// A table may be summed by rows or by columns.
pub proof fn lemma_total_swapped(m: nat, n: nat, g: spec_fn(int, int) -> real)
    ensures
        total(m, |i: int| row_total(n, g, i)) == total(n, |j: int| column_total(m, g, j)),
    decreases m,
{
    let rows = |i: int| row_total(n, g, i);
    let columns = |j: int| column_total(m, g, j);
    if m == 0 {
        lemma_total_ends(0, n, columns);
    } else {
        let p = (m - 1) as nat;
        let fewer = |j: int| column_total(p, g, j);
        let last = |j: int| g(p as int, j);
        lemma_total_swapped(p, n, g);
        lemma_total_plus(n, fewer, last);
        assert forall|j: int| 0 <= j < n implies #[trigger] columns(j) == fewer(j) + last(j) by {
            assert(total(m, |i: int| g(i, j)) == total(p, |i: int| g(i, j)) + g(p as int, j));
        }
        lemma_total_same(n, columns, |j: int| fewer(j) + last(j));
        assert(rows(p as int) == total(n, last));
    }
}

/// A table that is written out row by row has the same sum.
pub proof fn lemma_total_flat(w: nat, h: nat, f: spec_fn(int) -> real)
    ensures
        total(w * h, f) == total(h, |y: int| total(w, |x: int| f(y * w + x))),
    decreases h,
{
    let rows = |y: int| total(w, |x: int| f(y * w + x));
    if h == 0 {
        assert(w * 0 == 0);
    } else {
        let p = (h - 1) as nat;
        lemma_total_flat(w, p, f);
        assert(w * h == w * p + w) by (nonlinear_arith)
            requires
                h == p + 1,
        ;
        lemma_total_append(w * p, w, f);
        assert(w * p == p * w) by (nonlinear_arith);
        lemma_total_same(w, |i: int| f(w * p + i), |x: int| f(p * w + x));
        assert(rows(p as int) == total(w, |x: int| f(p * w + x)));
    }
}

} // verus!
