//! What stands in a framebuffer.

use super::forward::{at, composited, tile_of, Light, Pixel};
use super::rasterizer::{frame_pixel, framed, Framebuffer};
use super::splat::Splat;
use super::tiles::tiles_over;
use crate::num::single::{Single, ZERO};
use vstd::prelude::*;

verus! {

/// The pixel in row `py` and column `px` of a framebuffer has four values, one after the other:
/// the red, green and blue light that the splats listed for its tile, 16 by 16 pixels large, make
/// of the background, and the coverage of what then shines through.  Where none is listed, all
/// four are zero.
pub proof fn frames_show_every_pixel<
    P: Fn(usize, usize, &Splat) -> Single,
    A: Fn(&Splat, Single) -> Single,
    B: Fn(&Splat, Single, Light) -> Light,
    K: Fn(Single) -> Single,
>(
    power: P,
    alpha: A,
    blend: B,
    coverage: K,
    start: Light,
    lists: Seq<Vec<usize>>,
    splats: Seq<Splat>,
    out: &Framebuffer,
    px: usize,
    py: usize,
)
    requires
        framed(power, alpha, blend, coverage, start, lists, splats, out),
        px < out.width,
        py < out.height,
    ensures
        ({
            let list = lists[(py as int / 16) * ((out.width + 15) / 16) + px as int / 16]@;
            let i = 4 * (py * out.width + px);
            if list.len() == 0 {
                &&& out.data[i].bits == 0
                &&& out.data[i + 1].bits == 0
                &&& out.data[i + 2].bits == 0
                &&& out.data[i + 3].bits == 0
            } else {
                exists|fin: Pixel|
                    {
                        &&& #[trigger] composited(
                            power,
                            alpha,
                            blend,
                            start,
                            px,
                            py,
                            list,
                            splats,
                            fin,
                        )
                        &&& out.data[i] == fin.light.red
                        &&& out.data[i + 1] == fin.light.green
                        &&& out.data[i + 2] == fin.light.blue
                        &&& call_ensures(coverage, (fin.light.t,), out.data[i + 3])
                    }
            }
        }),
{
    let w = out.width as int;
    let k = tile_of(w, px as int, py as int);
    assert(tiles_over(w as nat) == (w + 15) / 16);
    assert(k == (py as int / 16) * ((out.width + 15) / 16) + px as int / 16);
    let j = at(w, px as int, py as int);
    assert(j == py * out.width + px);
    let rgba = out.pixel(j);
    let i = 4 * j;
    assert(rgba[0] == out.data[i] && rgba[1] == out.data[i + 1] && rgba[2] == out.data[i + 2]
        && rgba[3] == out.data[i + 3]);
    let list = lists[k]@;
    if list.len() == 0 {
        let zero = Single { bits: ZERO };
        assert(rgba == [zero, zero, zero, zero]);
        assert(rgba[0] == zero && rgba[1] == zero && rgba[2] == zero && rgba[3] == zero);
    } else {
        assert(frame_pixel(power, alpha, blend, coverage, start, px, py, list, splats, rgba));
        let fin = choose|fin: Pixel| #[trigger]
            composited(power, alpha, blend, start, px, py, list, splats, fin) && rgba[0]
                == fin.light.red && rgba[1] == fin.light.green && rgba[2] == fin.light.blue
                && call_ensures(coverage, (fin.light.t,), rgba[3]);
        assert(composited(power, alpha, blend, start, px, py, list, splats, fin));
    }
}

} // verus!
