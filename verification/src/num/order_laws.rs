//! What an order is.

use super::bytes::{u32_le, u32_of_le};
use super::order::{before, stable_order};
use super::single::{small_integer, Single};
use vstd::arithmetic::power2::pow2;
use vstd::prelude::*;

verus! {

/// An order names every key once, the least first, and of equal keys the earlier first.
pub proof fn orders_are_ascending_and_stable(keys: &[i64], r: Vec<usize>)
    requires
        call_ensures(stable_order, (keys,), r),
    ensures
        r.len() == keys@.len(),
        forall|i: usize| #[trigger] r@.contains(i) <==> i < keys@.len(),
        forall|a: int, b: int|
            0 <= a < b < r.len() ==> (#[trigger] keys@[r@[a] as int]) <= #[trigger] keys@[r@[b] as int],
        forall|a: int, b: int|
            0 <= a < b < r.len() && keys@[r@[a] as int] == keys@[r@[b] as int] ==> #[trigger] r@[a]
                < #[trigger] r@[b],
{
    let ks = super::order::ints(keys@);
    assert forall|a: int, b: int| 0 <= a < b < r.len() implies (#[trigger] keys@[r@[a] as int])
        <= #[trigger] keys@[r@[b] as int] by {
        assert(before(ks, r@[a] as int, r@[b] as int));
        assert(r@.contains(r@[a]) && r@.contains(r@[b]));
    }
    assert forall|a: int, b: int|
        0 <= a < b < r.len() && keys@[r@[a] as int] == keys@[r@[b] as int] implies #[trigger] r@[a]
        < #[trigger] r@[b] by {
        assert(before(ks, r@[a] as int, r@[b] as int));
        assert(r@.contains(r@[a]) && r@.contains(r@[b]));
    }
}

/// An integer is stored as the number that it is.
pub proof fn integers_have_their_value(n: u16, r: Single)
    requires
        call_ensures(Single::from_u16, (n,), r),
    ensures
        r.value() == n * pow2(149),
        r == small_integer(n as nat),
{
}

/// Four bytes hold a word, the least significant first.
pub proof fn words_are_stored_from_the_low_end(x: u32)
    ensures
        u32_le(x).len() == 4,
        x == u32_le(x)[0] + 0x100 * u32_le(x)[1] + 0x1_0000 * u32_le(x)[2] + 0x100_0000
            * u32_le(x)[3],
        u32_of_le(u32_le(x)) == x,
{
    super::bytes::lemma_u32_le_round_trip(x);
    assert(x / 0x100_0000 < 0x100);
}

} // verus!
