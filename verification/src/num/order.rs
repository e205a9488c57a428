//! Stable ordering of positions by integer keys.

use vstd::prelude::*;

verus! {

/// Position `i` comes before position `j`: by its key, and among equal keys by where it stands.
pub open spec fn before(keys: Seq<int>, i: int, j: int) -> bool {
    keys[i] < keys[j] || keys[i] == keys[j] && i < j
}

/// `r` holds the positions `lo..hi` of `keys`, each once, in their stable order.
pub open spec fn orders_range(keys: Seq<int>, lo: int, hi: int, r: Seq<usize>) -> bool {
    &&& r.len() == hi - lo
    &&& forall|x: usize| #[trigger] r.contains(x) <==> lo <= x < hi
    &&& forall|a: int, b: int|
        0 <= a < b < r.len() ==> before(keys, #[trigger] r[a] as int, #[trigger] r[b] as int)
}

/// `r` holds all positions of `keys`, each once, in their stable order.
pub open spec fn orders(keys: Seq<int>, r: Seq<usize>) -> bool {
    orders_range(keys, 0, keys.len() as int, r)
}

/// There is one stable order.
pub proof fn stable_order_is_unique(keys: Seq<int>, r: Seq<usize>, q: Seq<usize>)
    requires
        orders(keys, r),
        orders(keys, q),
    ensures
        r == q,
{
    assert forall|k: int| 0 <= k < r.len() implies r[k] == q[k] by {
        lemma_same_at(keys, r, q, k);
    }
    assert(r =~= q);
}

proof fn lemma_same_at(keys: Seq<int>, r: Seq<usize>, q: Seq<usize>, k: int)
    requires
        orders(keys, r),
        orders(keys, q),
        0 <= k < r.len(),
    ensures
        r[k] == q[k],
    decreases k,
{
    assert forall|i: int| 0 <= i < k implies r[i] == q[i] by {
        lemma_same_at(keys, r, q, i);
    }
    let (x, y) = (r[k], q[k]);
    assert(r.contains(x) && q.contains(y));
    assert(q.contains(x) && r.contains(y));
    let a = choose|a: int| 0 <= a < q.len() && q[a] == x;
    let b = choose|b: int| 0 <= b < r.len() && r[b] == y;
    if a < k {
        assert(before(keys, r[a] as int, r[k] as int));
    } else if b < k {
        assert(before(keys, q[b] as int, q[k] as int));
    } else if a > k && b > k {
        assert(before(keys, q[k] as int, q[a] as int));
        assert(before(keys, r[k] as int, r[b] as int));
    }
}

/// Every position stands in the order at one place.
pub proof fn lemma_placed_once(keys: Seq<int>, r: Seq<usize>)
    requires
        orders(keys, r),
    ensures
        r.no_duplicates(),
        forall|k: int| 0 <= k < r.len() ==> #[trigger] r[k] < keys.len(),
{
    assert forall|a: int, b: int| 0 <= a < r.len() && 0 <= b < r.len() && a != b implies r[a]
        != r[b] by {
        if a < b {
            assert(before(keys, r[a] as int, r[b] as int));
        } else {
            assert(before(keys, r[b] as int, r[a] as int));
        }
    }
    assert forall|k: int| 0 <= k < r.len() implies #[trigger] r[k] < keys.len() by {
        assert(r.contains(r[k]));
    }
}

/// What is put in order stays the same, as often as it is there.
pub proof fn ordering_keeps_all<A>(keys: Seq<int>, r: Seq<usize>, s: Seq<A>)
    requires
        orders(keys, r),
        s.len() == keys.len(),
    ensures
        Seq::new(r.len(), |k: int| s[r[k] as int]).to_multiset() == s.to_multiset(),
{
    lemma_placed_once(keys, r);
    lemma_rearranged(s, r);
}

/// Entries taken once each, from a row in which each is taken, are the entries of the row.
proof fn lemma_rearranged<A>(s: Seq<A>, r: Seq<usize>)
    requires
        r.len() == s.len(),
        r.no_duplicates(),
        forall|k: int| 0 <= k < r.len() ==> #[trigger] r[k] < s.len(),
    ensures
        Seq::new(r.len(), |k: int| s[r[k] as int]).to_multiset() == s.to_multiset(),
    decreases s.len(),
{
    broadcast use vstd::seq_lib::group_to_multiset_ensures;

    let t = Seq::new(r.len(), |k: int| s[r[k] as int]);
    if s.len() == 0 {
        assert(t =~= s);
    } else {
        let n = s.len() - 1;
        let j = r[n] as int;
        // Without its last entry, `r` takes the row without entry `j`, once each.
        let fewer = s.remove(j);
        let q = Seq::new(
            n as nat,
            |k: int|
                if r[k] < j {
                    r[k]
                } else {
                    (r[k] - 1) as usize
                },
        );
        assert forall|k: int| 0 <= k < q.len() implies #[trigger] q[k] < fewer.len() by {
            assert(r[k] < s.len());
            assert(r[k] != r[n]);
        }
        assert forall|a: int, b: int| 0 <= a < q.len() && 0 <= b < q.len() && a != b implies q[a]
            != q[b] by {
            assert(r[a] != r[b]);
            assert(r[a] != r[n] && r[b] != r[n]);
        }
        lemma_rearranged(fewer, q);
        let u = Seq::new(q.len(), |k: int| fewer[q[k] as int]);
        assert forall|k: int| 0 <= k < n implies #[trigger] u[k] == t[k] by {
            assert(r[k] != r[n]);
        }
        assert(t =~= u.push(s[j]));
        assert(t.to_multiset() =~= u.to_multiset().insert(s[j]));
        assert(fewer.to_multiset() =~= s.to_multiset().remove(s[j]));
        assert(s.to_multiset().count(s[j]) > 0) by {
            assert(s.contains(s[j]));
        }
        assert(s.to_multiset().remove(s[j]).insert(s[j]) =~= s.to_multiset());
    }
}

proof fn lemma_contains_push(r: Seq<usize>, v: usize)
    ensures
        forall|x: usize| #[trigger] r.push(v).contains(x) <==> r.contains(x) || x == v,
{
    assert forall|x: usize| #[trigger] r.push(v).contains(x) <==> r.contains(x) || x == v by {
        if r.contains(x) {
            let k = choose|k: int| 0 <= k < r.len() && r[k] == x;
            assert(r.push(v)[k] == x);
        }
        if x == v {
            assert(r.push(v)[r.len() as int] == x);
        }
    }
}

/// The keys as integers.
pub open spec fn ints(keys: Seq<i64>) -> Seq<int> {
    keys.map_values(|k: i64| k as int)
}

/// What is known while two ordered runs are merged: `i` of `a` and `j` of `b` stand in `r`.
spec fn merging(
    keys: Seq<int>,
    a: Seq<usize>,
    b: Seq<usize>,
    i: int,
    j: int,
    r: Seq<usize>,
) -> bool {
    &&& 0 <= i <= a.len()
    &&& 0 <= j <= b.len()
    &&& r.len() == i + j
    &&& forall|x: usize| #[trigger]
        r.contains(x) <==> a.take(i).contains(x) || b.take(j).contains(x)
    &&& forall|p: int, q: int|
        0 <= p < q < r.len() ==> before(keys, #[trigger] r[p] as int, #[trigger] r[q] as int)
    &&& forall|p: int, q: int|
        0 <= p < r.len() && i <= q < a.len() ==> before(
            keys,
            #[trigger] r[p] as int,
            #[trigger] a[q] as int,
        )
    &&& forall|p: int, q: int|
        0 <= p < r.len() && j <= q < b.len() ==> before(
            keys,
            #[trigger] r[p] as int,
            #[trigger] b[q] as int,
        )
}

proof fn lemma_take_contains(a: Seq<usize>, i: int)
    requires
        0 <= i < a.len(),
    ensures
        forall|x: usize| #[trigger]
            a.take(i + 1).contains(x) <==> a.take(i).contains(x) || x == a[i],
{
    assert(a.take(i + 1) =~= a.take(i).push(a[i]));
    lemma_contains_push(a.take(i), a[i]);
}

/// Merges the ordered positions `lo..mid` and `mid..hi`.
fn merge(
    keys: &[i64],
    a: &Vec<usize>,
    b: &Vec<usize>,
    Ghost(lo): Ghost<int>,
    Ghost(mid): Ghost<int>,
    Ghost(hi): Ghost<int>,
) -> (r: Vec<usize>)
    requires
        0 <= lo <= mid <= hi <= keys.len(),
        orders_range(ints(keys@), lo, mid, a@),
        orders_range(ints(keys@), mid, hi, b@),
    ensures
        orders_range(ints(keys@), lo, hi, r@),
{
    let ghost ks = ints(keys@);
    let mut r: Vec<usize> = Vec::new();
    let mut i: usize = 0;
    let mut j: usize = 0;
    proof {
        assert(a@.take(0) =~= Seq::<usize>::empty());
        assert(b@.take(0) =~= Seq::<usize>::empty());
    }
    while i < a.len() || j < b.len()
        invariant
            ks == ints(keys@),
            0 <= lo <= mid <= hi <= keys.len(),
            orders_range(ks, lo, mid, a@),
            orders_range(ks, mid, hi, b@),
            merging(ks, a@, b@, i as int, j as int, r@),
        decreases a.len() - i + (b.len() - j),
    {
        let ghost before_push = r@;
        proof {
            assert(forall|k: int| 0 <= k < a.len() ==> a@.contains(#[trigger] a@[k]));
            assert(forall|k: int| 0 <= k < b.len() ==> b@.contains(#[trigger] b@[k]));
        }
        let left = if i >= a.len() {
            false
        } else if j >= b.len() {
            true
        } else {
            keys[a[i]] <= keys[b[j]]
        };
        if left {
            let v = a[i];
            r.push(v);
            proof {
                lemma_contains_push(before_push, v);
                lemma_take_contains(a@, i as int);
            }
            i += 1;
        } else {
            let v = b[j];
            r.push(v);
            proof {
                lemma_contains_push(before_push, v);
                lemma_take_contains(b@, j as int);
            }
            j += 1;
        }
    }
    proof {
        assert(a@.take(i as int) =~= a@);
        assert(b@.take(j as int) =~= b@);
    }
    r
}

fn order_range(keys: &[i64], lo: usize, hi: usize) -> (r: Vec<usize>)
    requires
        lo <= hi <= keys.len(),
    ensures
        orders_range(ints(keys@), lo as int, hi as int, r@),
    decreases hi - lo,
{
    let mut r: Vec<usize> = Vec::new();
    if hi - lo == 0 {
        r
    } else if hi - lo == 1 {
        r.push(lo);
        proof {
            lemma_contains_push(Seq::empty(), lo);
        }
        r
    } else {
        let mid = lo + (hi - lo) / 2;
        let a = order_range(keys, lo, mid);
        let b = order_range(keys, mid, hi);
        merge(keys, &a, &b, Ghost(lo as int), Ghost(mid as int), Ghost(hi as int))
    }
}

/// The positions of `keys` in ascending order of their keys; equal keys keep their order.
pub fn stable_order(keys: &[i64]) -> (r: Vec<usize>)
    ensures
        orders(ints(keys@), r@),
{
    order_range(keys, 0, keys.len())
}

} // verus!
