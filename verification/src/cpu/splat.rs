//! Projected Gaussians, and the order in which they are drawn.

use super::forward::names_splats;
use super::tiles::{bin, binned, lemma_touching, n_tiles, tiles_over, TileRect};
use crate::num::order::{before, ordering_keeps_all, orders, stable_order};
use crate::num::single::{lemma_rank_is_order, Single};
use vstd::prelude::*;

verus! {

/// The pattern of `1 / 255`: what is fainter leaves no trace in eight bits.
pub const ALPHA_THRESHOLD: u32 = 0x3B80_8081;

/// A projected Gaussian, with what compositing it and differentiating it need.
#[derive(Clone, Copy, Debug)]
pub struct Splat {
    /// Which Gaussian this is.
    pub gi: usize,
    /// Centre on the screen.
    pub sx: Single,
    pub sy: Single,
    /// Inverse of the screen covariance: `[[a, b], [b, c]]`.
    pub conic: [Single; 3],
    /// Screen covariance, low-passed.
    pub cov2d: [Single; 3],
    /// Colour as composited.
    pub color: [Single; 3],
    /// Colour before it was clamped.
    pub raw_color: [Single; 3],
    pub opacity: Single,
    pub depth: Single,
    /// Spherical-harmonics basis in the viewing direction.
    pub basis: [Single; 16],
    /// Centre in camera space.
    pub pcam: [Single; 3],
    pub tiles: TileRect,
}

/// The splats among `projected`, in order.
pub open spec fn drawn(projected: Seq<Option<Splat>>) -> Seq<Splat>
    decreases projected.len(),
{
    if projected.len() == 0 {
        Seq::empty()
    } else {
        let fewer = drawn(projected.drop_last());
        match projected.last() {
            Some(s) => fewer.push(s),
            None => fewer,
        }
    }
}

/// The ranks of the depths of `splats`.
pub open spec fn depth_ranks(splats: Seq<Splat>) -> Seq<int> {
    splats.map_values(|s: Splat| s.depth.rank())
}

/// The tiles that each splat touches.
pub open spec fn footprints(splats: Seq<Splat>) -> Seq<TileRect> {
    splats.map_values(|s: Splat| s.tiles)
}

/// `arranged` holds `splats` by depth, the nearest first; equal depths keep their order.
pub open spec fn by_depth(splats: Seq<Splat>, arranged: Seq<Splat>) -> bool {
    exists|r: Seq<usize>| #[trigger]
        orders(depth_ranks(splats), r) && arranged == Seq::new(
            r.len(),
            |k: int| splats[r[k] as int],
        )
}

/// Whether the depths can be compared with each other.
pub open spec fn comparable(splats: Seq<Splat>) -> bool {
    splats.len() >= 2 ==> forall|i: int|
        0 <= i < splats.len() ==> !(#[trigger] splats[i]).depth.nan()
}

/// Splats that are arranged by depth stand nearest first.
pub proof fn nearest_first(splats: Seq<Splat>, arranged: Seq<Splat>, a: int, b: int)
    requires
        by_depth(splats, arranged),
        comparable(splats),
        0 <= a < b < arranged.len(),
    ensures
        arranged[a].depth.value() <= arranged[b].depth.value(),
        !arranged[b].depth.below(arranged[a].depth),
{
    let r = choose|r: Seq<usize>| #[trigger]
        orders(depth_ranks(splats), r) && arranged == Seq::new(
            r.len(),
            |k: int| splats[r[k] as int],
        );
    assert(r.contains(r[a]) && r.contains(r[b]));
    assert(before(depth_ranks(splats), r[a] as int, r[b] as int));
    lemma_rank_is_order(splats[r[a] as int].depth, splats[r[b] as int].depth);
}

/// Arranging splats leaves none out and adds none: each is there as often as before.
pub proof fn arranging_loses_nothing(splats: Seq<Splat>, arranged: Seq<Splat>)
    requires
        by_depth(splats, arranged),
    ensures
        arranged.len() == splats.len(),
        arranged.to_multiset() == splats.to_multiset(),
{
    let r = choose|r: Seq<usize>| #[trigger]
        orders(depth_ranks(splats), r) && arranged == Seq::new(
            r.len(),
            |k: int| splats[r[k] as int],
        );
    ordering_keeps_all(depth_ranks(splats), r, splats);
}

/// Drops what is not drawn, arranges the splats nearest first, and files them under the
/// tiles that they touch.  Also returned is the width of the tile grid.
pub fn project_and_bin(projected: &[Option<Splat>], w: usize, h: usize) -> (r: (
    Vec<Splat>,
    Vec<Vec<usize>>,
    usize,
))
    requires
        w + 16 <= usize::MAX,
        h + 16 <= usize::MAX,
        tiles_over(w as nat) * tiles_over(h as nat) <= usize::MAX,
        comparable(drawn(projected@)),
    ensures
        by_depth(drawn(projected@), r.0@),
        binned(
            footprints(r.0@),
            tiles_over(w as nat) as int,
            tiles_over(h as nat) as int,
            r.1@,
        ),
        r.2 == tiles_over(w as nat),
{
    let mut splats: Vec<Splat> = Vec::new();
    let mut keys: Vec<i64> = Vec::new();
    for i in 0..projected.len()
        invariant
            splats@ == drawn(projected@.take(i as int)),
            keys.len() == splats.len(),
            forall|k: int| 0 <= k < keys.len() ==> #[trigger] keys[k] == splats[k].depth.rank(),
    {
        assert(projected@.take(i + 1).drop_last() =~= projected@.take(i as int));
        if let Some(s) = projected[i] {
            splats.push(s);
            keys.push(s.depth.signed());
        }
    }
    assert(projected@.take(projected.len() as int) =~= projected@);
    let order = stable_order(&keys);
    assert(crate::num::order::ints(keys@) =~= depth_ranks(splats@));
    let mut arranged: Vec<Splat> = Vec::new();
    let mut rects: Vec<TileRect> = Vec::new();
    for k in 0..order.len()
        invariant
            orders(depth_ranks(splats@), order@),
            arranged@ == Seq::new(k as nat, |j: int| splats[order[j] as int]),
            rects@ == footprints(arranged@),
    {
        assert(order@.contains(order@[k as int]));
        let s = splats[order[k]];
        arranged.push(s);
        rects.push(s.tiles);
        assert(arranged@ =~= Seq::new((k + 1) as nat, |j: int| splats[order[j] as int]));
        assert(rects@ =~= footprints(arranged@));
    }
    let nx = n_tiles(w);
    let ny = n_tiles(h);
    let lists = bin(&rects, nx, ny);
    (arranged, lists, nx)
}

/// The lists of a binned image name splats that exist.
pub proof fn lemma_lists_name_splats(splats: Seq<Splat>, w: int, h: int, lists: Seq<Vec<usize>>)
    requires
        splats.len() <= usize::MAX,
        binned(
            footprints(splats),
            tiles_over(w as nat) as int,
            tiles_over(h as nat) as int,
            lists,
        ),
    ensures
        forall|k: int| 0 <= k < lists.len() ==> names_splats((#[trigger] lists[k])@, splats.len()),
{
    let nx = tiles_over(w as nat) as int;
    assert forall|k: int| 0 <= k < lists.len() implies names_splats(
        (#[trigger] lists[k])@,
        splats.len(),
    ) by {
        lemma_touching(footprints(splats), k % nx, k / nx, splats.len());
    }
}

} // verus!
