//! The pinhole camera.

use crate::num::single::{Single, ONE, ZERO};
use vstd::prelude::*;

verus! {

/// A pinhole camera with its pose.
#[derive(Clone, Debug)]
pub struct Camera<T> {
    pub width: u32,
    pub height: u32,
    /// Focal lengths, in pixels.
    pub fx: T,
    pub fy: T,
    /// Principal point, in pixels.
    pub cx: T,
    pub cy: T,
    /// Camera to world, row by row.
    pub c2w: [[T; 4]; 4],
    /// Radial distortion.
    pub distortion: [T; 3],
    /// The name of the image taken from here, if there is one.
    pub image_path: Option<String>,
}

impl<T: Copy> Camera<T> {
    /// The centre in world space: the last column of the pose.
    pub fn position(&self) -> (r: [T; 3])
        ensures
            r@ == seq![self.c2w[0][3], self.c2w[1][3], self.c2w[2][3]],
    {
        let r = [self.c2w[0][3], self.c2w[1][3], self.c2w[2][3]];
        assert(r@ =~= seq![self.c2w[0][3], self.c2w[1][3], self.c2w[2][3]]);
        r
    }

    pub fn focal(&self) -> (r: (T, T))
        ensures
            r == (self.fx, self.fy),
    {
        (self.fx, self.fy)
    }
}

/// Entry `col` of row `row` of the unit matrix.
pub open spec fn unit(row: int, col: int) -> Single {
    if row == col {
        Single { bits: ONE }
    } else {
        Single { bits: ZERO }
    }
}

/// `m` is the unit matrix.
pub open spec fn is_unit(m: [[Single; 4]; 4]) -> bool {
    forall|row: int, col: int|
        0 <= row < 4 && 0 <= col < 4 ==> #[trigger] m[row][col] == unit(row, col)
}

/// The unit matrix.
pub fn unit_matrix() -> (m: [[Single; 4]; 4])
    ensures
        is_unit(m),
{
    let o = Single { bits: ZERO };
    let l = Single { bits: ONE };
    let m = [[l, o, o, o], [o, l, o, o], [o, o, l, o], [o, o, o, l]];
    assert forall|row: int, col: int| 0 <= row < 4 && 0 <= col < 4 implies #[trigger] m[row][col]
        == unit(row, col) by {
        assert(m[0] == [l, o, o, o]);
        assert(m[1] == [o, l, o, o]);
        assert(m[2] == [o, o, l, o]);
        assert(m[3] == [o, o, o, l]);
        assert(row == 0 || row == 1 || row == 2 || row == 3);
        assert(col == 0 || col == 1 || col == 2 || col == 3);
    }
    m
}

} // verus!
