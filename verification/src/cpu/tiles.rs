//! The screen as a grid of square tiles.
//!
//! A projected Gaussian touches a rectangle of tiles; each tile lists the splats that touch
//! it, in the order in which they are composited.

use vstd::arithmetic::div_mod::{lemma_fundamental_div_mod, lemma_fundamental_div_mod_converse};
use vstd::prelude::*;

verus! {

/// Pixels along a tile's side.
pub const TILE_SIZE: usize = 16;

/// How many tiles cover `pixels` pixels.
pub open spec fn tiles_over(pixels: nat) -> nat {
    (pixels + 15) / 16
}

pub fn n_tiles(pixels: usize) -> (r: usize)
    requires
        pixels + 16 <= usize::MAX,
    ensures
        r == tiles_over(pixels as nat),
{
    (pixels + TILE_SIZE - 1) / TILE_SIZE
}

/// The tiles that a splat touches: columns `x0..x1`, rows `y0..y1`.
#[derive(Clone, Copy, Debug, PartialEq, Eq, Structural)]
pub struct TileRect {
    pub x0: usize,
    pub y0: usize,
    pub x1: usize,
    pub y1: usize,
}

impl TileRect {
    /// Whether the rectangle holds the tile in column `tx` of row `ty`.
    pub open spec fn holds(self, tx: int, ty: int) -> bool {
        self.x0 <= tx < self.x1 && self.y0 <= ty < self.y1
    }

    /// The tiles that the pixels `x0..x1` by `y0..y1` touch.
    pub fn over(x0: i32, y0: i32, x1: i32, y1: i32) -> (r: TileRect)
        requires
            0 <= x0,
            0 <= y0,
            0 <= x1 <= i32::MAX - 16,
            0 <= y1 <= i32::MAX - 16,
        ensures
            r.x0 == x0 as int / 16,
            r.y0 == y0 as int / 16,
            r.x1 == (x1 + 15) / 16,
            r.y1 == (y1 + 15) / 16,
    {
        TileRect {
            x0: (x0 / 16) as usize,
            y0: (y0 / 16) as usize,
            x1: ((x1 + 16 - 1) / 16) as usize,
            y1: ((y1 + 16 - 1) / 16) as usize,
        }
    }
}

/// A tile is among those over a box of pixels exactly if it holds one of these pixels.
pub proof fn tiles_over_a_box(x0: int, y0: int, x1: int, y1: int, tx: int, ty: int)
    requires
        0 <= x0,
        0 <= y0,
        0 <= tx,
        0 <= ty,
    ensures
        x0 / 16 <= tx < (x1 + 15) / 16 && y0 / 16 <= ty < (y1 + 15) / 16 && x0 < x1 && y0 < y1
            <==> exists|px: int, py: int|
            x0 <= px < x1 && y0 <= py < y1 && #[trigger] in_tile(px, py, tx, ty),
{
    if x0 / 16 <= tx < (x1 + 15) / 16 && y0 / 16 <= ty < (y1 + 15) / 16 && x0 < x1 && y0 < y1 {
        let px = if x0 <= 16 * tx {
            16 * tx
        } else {
            x0
        };
        let py = if y0 <= 16 * ty {
            16 * ty
        } else {
            y0
        };
        assert(in_tile(px, py, tx, ty));
    }
}

/// Pixel `(px, py)` lies in the tile in column `tx` of row `ty`.
pub open spec fn in_tile(px: int, py: int, tx: int, ty: int) -> bool {
    16 * tx <= px < 16 * tx + 16 && 16 * ty <= py < 16 * ty + 16
}

// ── the pixels of a tile ────────────────────────────────────────────────────────────────

/// The pixels `px0..px1` by `py0..py1` of a tile.
#[derive(Clone, Copy, Debug, PartialEq, Eq, Structural)]
pub struct TileBounds {
    pub px0: usize,
    pub py0: usize,
    pub px1: usize,
    pub py1: usize,
}

impl TileBounds {
    pub open spec fn holds(self, px: int, py: int) -> bool {
        self.px0 <= px < self.px1 && self.py0 <= py < self.py1
    }

    /// A box inside a `w` by `h` image.
    pub open spec fn within(self, w: int, h: int) -> bool {
        self.px0 <= self.px1 <= w && self.py0 <= self.py1 <= h
    }

    pub open spec fn width(self) -> int {
        self.px1 - self.px0
    }

    pub open spec fn height(self) -> int {
        self.py1 - self.py0
    }
}

/// The pixels of tile `k` of a `w` by `h` image; the last column and row may be cut off.
pub open spec fn bounds_of(k: int, w: int, h: int) -> TileBounds {
    let nx = tiles_over(w as nat) as int;
    let (tx, ty) = (k % nx, k / nx);
    TileBounds {
        px0: (16 * tx) as usize,
        py0: (16 * ty) as usize,
        px1: (if 16 * tx + 16 <= w {
            16 * tx + 16
        } else {
            w
        }) as usize,
        py1: (if 16 * ty + 16 <= h {
            16 * ty + 16
        } else {
            h
        }) as usize,
    }
}

/// Row and column of a cell of a grid `nx` wide.
pub proof fn lemma_cell(k: int, nx: int, ny: int)
    requires
        0 <= k < nx * ny,
        0 < nx,
    ensures
        0 <= k % nx < nx,
        0 <= k / nx < ny,
        k == (k / nx) * nx + k % nx,
{
    lemma_fundamental_div_mod(k, nx);
    assert(0 <= k / nx) by (nonlinear_arith)
        requires
            0 <= k,
            0 < nx,
    ;
    assert(k / nx < ny) by (nonlinear_arith)
        requires
            k == nx * (k / nx) + k % nx,
            0 <= k % nx,
            k < nx * ny,
            0 < nx,
    ;
    assert(nx * (k / nx) == (k / nx) * nx) by (nonlinear_arith);
}

/// The cell in column `x` of row `y`.
pub proof fn lemma_cell_at(x: int, y: int, nx: int, ny: int)
    requires
        0 <= x < nx,
        0 <= y < ny,
    ensures
        0 <= y * nx + x < nx * ny,
        (y * nx + x) % nx == x,
        (y * nx + x) / nx == y,
{
    let k = y * nx + x;
    lemma_fundamental_div_mod_converse(k, nx, y, x);
    assert(0 <= y * nx) by (nonlinear_arith)
        requires
            0 <= y,
            0 < nx,
    ;
    assert(y * nx + x < nx * ny) by (nonlinear_arith)
        requires
            0 <= x < nx,
            0 <= y < ny,
    ;
}

pub fn tile_bounds(k: usize, w: usize, h: usize) -> (r: TileBounds)
    requires
        w + 16 <= usize::MAX,
        h + 16 <= usize::MAX,
        k < tiles_over(w as nat) * tiles_over(h as nat),
    ensures
        r == bounds_of(k as int, w as int, h as int),
        r.within(w as int, h as int),
        r.width() <= 16,
        r.height() <= 16,
{
    let nx = n_tiles(w);
    proof {
        if tiles_over(w as nat) == 0 {
            assert(tiles_over(w as nat) * tiles_over(h as nat) == 0) by (nonlinear_arith)
                requires
                    tiles_over(w as nat) == 0,
            ;
        }
        lemma_cell(k as int, nx as int, tiles_over(h as nat) as int);
    }
    let tx = k % nx;
    let ty = k / nx;
    let px0 = tx * TILE_SIZE;
    let py0 = ty * TILE_SIZE;
    let px1 = if px0 + TILE_SIZE <= w {
        px0 + TILE_SIZE
    } else {
        w
    };
    let py1 = if py0 + TILE_SIZE <= h {
        py0 + TILE_SIZE
    } else {
        h
    };
    TileBounds { px0, py0, px1, py1 }
}

/// Every pixel of an image lies in exactly one of its tiles: the one in column `px / 16` of
/// row `py / 16`.
pub proof fn pixel_has_one_tile(px: int, py: int, w: int, h: int, k: int)
    requires
        0 <= px < w,
        0 <= py < h,
        w + 16 <= usize::MAX,
        h + 16 <= usize::MAX,
        0 <= k < tiles_over(w as nat) * tiles_over(h as nat),
    ensures
        bounds_of(k, w, h).holds(px, py) <==> k == py / 16 * tiles_over(w as nat) + px / 16,
        0 <= py / 16 * tiles_over(w as nat) + px / 16 < tiles_over(w as nat) * tiles_over(h as nat),
{
    let nx = tiles_over(w as nat) as int;
    let ny = tiles_over(h as nat) as int;
    lemma_cell(k, nx, ny);
    lemma_cell_at(px / 16, py / 16, nx, ny);
    let (tx, ty) = (k % nx, k / nx);
    if bounds_of(k, w, h).holds(px, py) {
        assert(px / 16 == tx);
        assert(py / 16 == ty);
    }
}

// ── binning ─────────────────────────────────────────────────────────────────────────────

/// Which of the first `n` splats touch the tile in column `tx` of row `ty`, in order.
pub open spec fn touching(rects: Seq<TileRect>, tx: int, ty: int, n: nat) -> Seq<usize>
    decreases n,
{
    if n == 0 {
        Seq::empty()
    } else {
        let fewer = touching(rects, tx, ty, (n - 1) as nat);
        if rects[n - 1].holds(tx, ty) {
            fewer.push((n - 1) as usize)
        } else {
            fewer
        }
    }
}

/// `lists` holds, for each tile of a grid `nx` wide, the splats that touch it.
pub open spec fn binned(rects: Seq<TileRect>, nx: int, ny: int, lists: Seq<Vec<usize>>) -> bool {
    &&& lists.len() == nx * ny
    &&& forall|k: int|
        0 <= k < lists.len() ==> (#[trigger] lists[k])@ == touching(
            rects,
            k % nx,
            k / nx,
            rects.len(),
        )
}

/// A tile's list names splats that exist, each once, in ascending order; and it names exactly
/// those that touch the tile.
pub proof fn lemma_touching(rects: Seq<TileRect>, tx: int, ty: int, n: nat)
    requires
        n <= rects.len(),
        n <= usize::MAX,
    ensures
        ({
            let list = touching(rects, tx, ty, n);
            &&& list.len() <= n
            &&& forall|a: int| 0 <= a < list.len() ==> #[trigger] list[a] < n
            &&& forall|a: int, b: int| 0 <= a < b < list.len() ==> list[a] < list[b]
            &&& forall|i: usize| #[trigger] list.contains(i) <==> i < n && rects[i as int].holds(tx, ty)
        }),
    decreases n,
{
    if n > 0 {
        let p = (n - 1) as nat;
        lemma_touching(rects, tx, ty, p);
        let fewer = touching(rects, tx, ty, p);
        let list = touching(rects, tx, ty, n);
        assert forall|i: usize| #[trigger] list.contains(i) <==> i < n && rects[i as int].holds(
            tx,
            ty,
        ) by {
            if fewer.contains(i) {
                let a = choose|a: int| 0 <= a < fewer.len() && fewer[a] == i;
                assert(list[a] == i);
            }
            if i == p && rects[p as int].holds(tx, ty) {
                assert(list[fewer.len() as int] == i);
            }
            if list.contains(i) {
                let a = choose|a: int| 0 <= a < list.len() && list[a] == i;
                if a < fewer.len() {
                    assert(fewer[a] == i);
                }
            }
        }
    }
}

/// What has been filed when splat `n` has been entered into the rows before `ty` and, in row
/// `ty`, the columns before `tx`.
spec fn filed(
    rects: Seq<TileRect>,
    nx: int,
    n: nat,
    tx: int,
    ty: int,
    lists: Seq<Vec<usize>>,
) -> bool {
    forall|k: int|
        0 <= k < lists.len() ==> (#[trigger] lists[k])@ == {
            let (x, y) = (k % nx, k / nx);
            if y < ty || (y == ty && x < tx) {
                touching(rects, x, y, n + 1)
            } else {
                touching(rects, x, y, n)
            }
        }
}

/// Files each splat under the tiles that it touches.
pub fn bin(rects: &[TileRect], nx: usize, ny: usize) -> (lists: Vec<Vec<usize>>)
    requires
        nx * ny <= usize::MAX,
    ensures
        binned(rects@, nx as int, ny as int, lists@),
{
    let mut lists: Vec<Vec<usize>> = Vec::new();
    let total = nx * ny;
    for k in 0..total
        invariant
            lists.len() == k,
            forall|j: int| 0 <= j < k ==> (#[trigger] lists[j])@ == Seq::<usize>::empty(),
    {
        lists.push(Vec::new());
    }
    for n in 0..rects.len()
        invariant
            lists.len() == nx * ny,
            nx * ny <= usize::MAX,
            forall|k: int|
                0 <= k < lists.len() ==> (#[trigger] lists[k])@ == touching(
                    rects@,
                    k % (nx as int),
                    k / (nx as int),
                    n as nat,
                ),
    {
        let rect = rects[n];
        let x1 = if rect.x1 < nx {
            rect.x1
        } else {
            nx
        };
        let y1 = if rect.y1 < ny {
            rect.y1
        } else {
            ny
        };
        let mut ty = rect.y0;
        while ty < y1
            invariant
                lists.len() == nx * ny,
                nx * ny <= usize::MAX,
                n < rects.len(),
                rect == rects[n as int],
                x1 == (if rect.x1 < nx { rect.x1 } else { nx }),
                y1 == (if rect.y1 < ny { rect.y1 } else { ny }),
                rect.y0 <= ty,
                filed(rects@, nx as int, n as nat, 0, ty as int, lists@),
            decreases y1 - ty,
        {
            let mut tx = rect.x0;
            while tx < x1
                invariant
                    lists.len() == nx * ny,
                    nx * ny <= usize::MAX,
                    n < rects.len(),
                    rect == rects[n as int],
                    x1 == (if rect.x1 < nx { rect.x1 } else { nx }),
                    y1 == (if rect.y1 < ny { rect.y1 } else { ny }),
                    rect.y0 <= ty < y1,
                    rect.x0 <= tx,
                    filed(rects@, nx as int, n as nat, tx as int, ty as int, lists@),
                decreases x1 - tx,
            {
                proof {
                    lemma_cell_at(tx as int, ty as int, nx as int, ny as int);
                }
                let ghost before = lists@;
                let k = ty * nx + tx;
                lists[k].push(n);
                tx += 1;
                proof {
                    assert forall|j: int| 0 <= j < lists.len() implies (#[trigger] lists[j])@ == {
                        let (x, y) = (j % (nx as int), j / (nx as int));
                        if y < ty || (y == ty && x < tx) {
                            touching(rects@, x, y, (n + 1) as nat)
                        } else {
                            touching(rects@, x, y, n as nat)
                        }
                    } by {
                        lemma_cell(j, nx as int, ny as int);
                        if j != k {
                            assert(lists[j] == before[j]);
                        }
                    }
                }
            }
            proof {
                assert forall|j: int| 0 <= j < lists.len() implies (#[trigger] lists[j])@ == {
                    let (x, y) = (j % (nx as int), j / (nx as int));
                    if y < ty + 1 {
                        touching(rects@, x, y, (n + 1) as nat)
                    } else {
                        touching(rects@, x, y, n as nat)
                    }
                } by {
                    assert(nx > 0) by (nonlinear_arith)
                        requires
                            0 <= j < nx * ny,
                            nx >= 0,
                    ;
                    lemma_cell(j, nx as int, ny as int);
                }
            }
            ty += 1;
        }
        proof {
            assert forall|j: int| 0 <= j < lists.len() implies (#[trigger] lists[j])@ == touching(
                rects@,
                j % (nx as int),
                j / (nx as int),
                (n + 1) as nat,
            ) by {
                assert(nx > 0) by (nonlinear_arith)
                    requires
                        0 <= j < nx * ny,
                        nx >= 0,
                ;
                lemma_cell(j, nx as int, ny as int);
            }
        }
    }
    lists
}

} // verus!
