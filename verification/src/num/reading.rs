//! What kernels compute, under a reading of the values as real numbers.
//!
//! A kernel is known by its `call_ensures` relation alone.  A law about what an algorithm is
//! for is stated over a reading `val` under which its kernels do what they are named after.

use super::fold::{lemma_reaches_last, lemma_reaches_nothing, reaches, upto};
use super::single::{Single, ZERO};
use super::sum::total;
use vstd::prelude::*;

verus! {

/// Both are numbers, and `a` is less than `b`.
pub open spec fn less(a: Single, b: Single) -> bool {
    !a.nan() && !b.nan() && a.value() < b.value()
}

/// Both are numbers, and `a` is no more than `b`.
pub open spec fn no_more(a: Single, b: Single) -> bool {
    !a.nan() && !b.nan() && a.value() <= b.value()
}

/// The pattern of zero is read as zero.
pub open spec fn reads_zero(val: spec_fn(Single) -> real) -> bool {
    val(Single { bits: ZERO }) == 0real
}

/// `mac` adds a product to its first argument.
pub open spec fn fuses<M: Fn(Single, Single, Single) -> Single>(
    mac: M,
    val: spec_fn(Single) -> real,
) -> bool {
    forall|acc: Single, a: Single, b: Single, r: Single| #[trigger]
        call_ensures(mac, (acc, a, b), r) ==> val(r) == val(acc) + val(a) * val(b)
}

/// `times` multiplies.
pub open spec fn multiplies<T: Fn(Single, Single) -> Single>(
    times: T,
    val: spec_fn(Single) -> real,
) -> bool {
    forall|a: Single, b: Single, r: Single| #[trigger]
        call_ensures(times, (a, b), r) ==> val(r) == val(a) * val(b)
}

/// `plus` adds.
pub open spec fn adds<P: Fn(Single, Single) -> Single>(
    plus: P,
    val: spec_fn(Single) -> real,
) -> bool {
    forall|a: Single, b: Single, r: Single| #[trigger]
        call_ensures(plus, (a, b), r) ==> val(r) == val(a) + val(b)
}

/// `minus` subtracts.
pub open spec fn subtracts<P: Fn(Single, Single) -> Single>(
    minus: P,
    val: spec_fn(Single) -> real,
) -> bool {
    forall|a: Single, b: Single, r: Single| #[trigger]
        call_ensures(minus, (a, b), r) ==> val(r) == val(a) - val(b)
}

/// `lift` adds the constant `c`.
pub open spec fn lifts<L: Fn(Single) -> Single>(
    lift: L,
    val: spec_fn(Single) -> real,
    c: real,
) -> bool {
    forall|a: Single, r: Single| #[trigger]
        call_ensures(lift, (a,), r) ==> val(r) == val(a) + c
}

/// A fold over `0, 1, .., n - 1` whose every step adds `f(i)` sums `f`.
pub proof fn lemma_fold_sums<S>(
    step: spec_fn(S, int, S) -> bool,
    n: nat,
    s0: S,
    s1: S,
    read: spec_fn(S) -> real,
    f: spec_fn(int) -> real,
)
    requires
        reaches(step, upto(n), s0, s1),
        forall|a: S, i: int, b: S|
            #![trigger step(a, i, b)]
            0 <= i < n && step(a, i, b) ==> read(b) == read(a) + f(i),
    ensures
        read(s1) == read(s0) + total(n, f),
    decreases n,
{
    if n == 0 {
        assert(upto(0) =~= Seq::<int>::empty());
        lemma_reaches_nothing(step, s0, s1);
    } else {
        let m = lemma_reaches_last(step, upto(n), s0, s1);
        assert(upto(n).drop_last() =~= upto((n - 1) as nat));
        assert(upto(n).last() == n - 1);
        lemma_fold_sums(step, (n - 1) as nat, s0, m, read, f);
    }
}

} // verus!
