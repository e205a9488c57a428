//! Buffer layouts: rows of 32-bit words, as the shader declares them.

use crate::math::camera::Camera;
use crate::math::Gaussian3D;
use crate::num::bytes::{lemma_u32_le_round_trip, u32_le};
use crate::num::single::{Single, ZERO};
use vstd::prelude::*;

verus! {

/// Words per Gaussian: 240 bytes.
pub const GAUSSIAN_WORDS: usize = 60;

/// Words of the camera: 176 bytes.
pub const CAMERA_WORDS: usize = 44;

/// Words per projected splat: 40 bytes.
pub const SPLAT_WORDS: usize = 10;

/// Threads per group.
pub const GROUP_SIZE: usize = 256;

// ── bytes ───────────────────────────────────────────────────────────────────────────────

/// The bytes of a word, least significant first or last.
pub open spec fn word_bytes(x: u32, little: bool) -> Seq<u8> {
    if little {
        u32_le(x)
    } else {
        u32_le(x).reverse()
    }
}

/// `bytes` holds `words` one after the other, in the given byte order.
pub open spec fn words_in(little: bool, words: Seq<u32>, bytes: Seq<u8>) -> bool {
    &&& bytes.len() == 4 * words.len()
    &&& forall|i: int|
        0 <= i < words.len() ==> bytes.subrange(4 * i, 4 * i + 4) == word_bytes(
            #[trigger] words[i],
            little,
        )
}

/// `bytes` holds `words` as the machine does, in one byte order or the other.
pub open spec fn in_memory(words: Seq<u32>, bytes: Seq<u8>) -> bool {
    words_in(true, words, bytes) || words_in(false, words, bytes)
}

/// Bytes hold one row of words in a byte order: what is downloaded as it was uploaded is
/// what was uploaded.
pub proof fn bytes_hold_one_row(little: bool, a: Seq<u32>, b: Seq<u32>, bytes: Seq<u8>)
    requires
        words_in(little, a, bytes),
        words_in(little, b, bytes),
    ensures
        a == b,
{
    assert forall|i: int| 0 <= i < a.len() implies a[i] == b[i] by {
        lemma_u32_le_round_trip(a[i]);
        lemma_u32_le_round_trip(b[i]);
        assert(word_bytes(a[i], little) == word_bytes(b[i], little));
        if !little {
            assert(u32_le(a[i]).reverse().reverse() =~= u32_le(a[i]));
            assert(u32_le(b[i]).reverse().reverse() =~= u32_le(b[i]));
        }
    }
    assert(a =~= b);
}

/// Calls [`bytemuck::cast_slice`] from words to bytes: the words as they stand in memory.
/// Which byte order that is depends on the machine.
#[verifier::external_body]
fn bytes_of_words(words: &[u32]) -> (r: Vec<u8>)
    ensures
        in_memory(words@, r@),
{
    bytemuck::cast_slice::<u32, u8>(words).to_vec()
}

/// Calls [`bytemuck::pod_collect_to_vec`] from bytes to words: the words that stand in memory
/// there.  Which byte order that is depends on the machine.
#[verifier::external_body]
fn words_of_bytes(bytes: &[u8]) -> (r: Vec<u32>)
    requires
        bytes.len() % 4 == 0,
    ensures
        in_memory(r@, bytes@),
{
    bytemuck::pod_collect_to_vec::<u8, u32>(bytes)
}

// ── Gaussians ───────────────────────────────────────────────────────────────────────────

/// Word `j` of a Gaussian: centre and opacity, rotation, log scales and one unused word,
/// then the spherical harmonics.
pub open spec fn gaussian_word(g: Gaussian3D<Single>, j: int) -> u32 {
    if j < 3 {
        g.position[j].bits
    } else if j == 3 {
        g.opacity_logit.bits
    } else if j < 8 {
        g.rotation[j - 4].bits
    } else if j < 11 {
        g.log_scale[j - 8].bits
    } else if j == 11 {
        ZERO
    } else {
        g.sh_coeffs[j - 12].bits
    }
}

/// The words of the Gaussians, one after the other.
pub open spec fn gaussian_words(gs: Seq<Gaussian3D<Single>>) -> Seq<u32> {
    Seq::new(
        gs.len() * GAUSSIAN_WORDS as nat,
        |k: int| gaussian_word(gs[k / GAUSSIAN_WORDS as int], k % GAUSSIAN_WORDS as int),
    )
}

/// The Gaussians as they are uploaded.
pub fn upload_gaussians(gaussians: &[Gaussian3D<Single>]) -> (r: Vec<u8>)
    ensures
        in_memory(gaussian_words(gaussians@), r@),
{
    let mut words: Vec<u32> = Vec::new();
    for i in 0..gaussians.len()
        invariant
            words.len() == i * GAUSSIAN_WORDS,
            forall|k: int|
                0 <= k < words.len() ==> #[trigger] words[k] == gaussian_word(
                    gaussians[k / 60],
                    k % 60,
                ),
    {
        let g = gaussians[i];
        for j in 0..GAUSSIAN_WORDS
            invariant
                i < gaussians.len(),
                g == gaussians[i as int],
                words.len() == i * GAUSSIAN_WORDS + j,
                forall|k: int|
                    0 <= k < words.len() ==> #[trigger] words[k] == gaussian_word(
                        gaussians[k / 60],
                        k % 60,
                    ),
        {
            let w = if j < 3 {
                g.position[j].bits
            } else if j == 3 {
                g.opacity_logit.bits
            } else if j < 8 {
                g.rotation[j - 4].bits
            } else if j < 11 {
                g.log_scale[j - 8].bits
            } else if j == 11 {
                ZERO
            } else {
                g.sh_coeffs[j - 12].bits
            };
            words.push(w);
        }
    }
    assert(words@ =~= gaussian_words(gaussians@));
    bytes_of_words(&words)
}

// ── the camera ──────────────────────────────────────────────────────────────────────────

/// Word `j` of a matrix, which is stored column by column.
pub open spec fn matrix_word(m: [[Single; 4]; 4], j: int) -> u32 {
    m[j % 4][j / 4].bits
}

/// The matrix column by column; `m` is given row by row.
pub fn mat_to_cols(m: &[[Single; 4]; 4]) -> (r: [[Single; 4]; 4])
    ensures
        forall|row: int, col: int|
            0 <= row < 4 && 0 <= col < 4 ==> #[trigger] r[col][row] == m[row][col],
{
    let c0 = [m[0][0], m[1][0], m[2][0], m[3][0]];
    let c1 = [m[0][1], m[1][1], m[2][1], m[3][1]];
    let c2 = [m[0][2], m[1][2], m[2][2], m[3][2]];
    let c3 = [m[0][3], m[1][3], m[2][3], m[3][3]];
    let r = [c0, c1, c2, c3];
    assert forall|row: int, col: int| 0 <= row < 4 && 0 <= col < 4 implies #[trigger] r[col][row]
        == m[row][col] by {
        assert(r[0] == c0 && r[1] == c1 && r[2] == c2 && r[3] == c3);
        assert(row == 0 || row == 1 || row == 2 || row == 3);
        assert(col == 0 || col == 1 || col == 2 || col == 3);
    }
    r
}

/// Word `j` of the camera: the view and the projection matrix, the centre, the size, the
/// focal lengths and the principal point, and three unused words.
pub open spec fn camera_word(
    view: [[Single; 4]; 4],
    proj: [[Single; 4]; 4],
    c: Camera<Single>,
    j: int,
) -> u32 {
    if j < 16 {
        matrix_word(view, j)
    } else if j < 32 {
        matrix_word(proj, j - 16)
    } else if j < 35 {
        c.c2w[j - 32][3].bits
    } else if j == 35 {
        c.width
    } else if j == 36 {
        c.height
    } else if j == 37 {
        c.fx.bits
    } else if j == 38 {
        c.fy.bits
    } else if j == 39 {
        c.cx.bits
    } else if j == 40 {
        c.cy.bits
    } else {
        ZERO
    }
}

pub open spec fn camera_words(
    view: [[Single; 4]; 4],
    proj: [[Single; 4]; 4],
    c: Camera<Single>,
) -> Seq<u32> {
    Seq::new(CAMERA_WORDS as nat, |j: int| camera_word(view, proj, c, j))
}

/// The camera as it is uploaded.
pub fn upload_camera(
    view: &[[Single; 4]; 4],
    proj: &[[Single; 4]; 4],
    camera: &Camera<Single>,
) -> (r: Vec<u8>)
    ensures
        in_memory(camera_words(*view, *proj, *camera), r@),
{
    let v = mat_to_cols(view);
    let p = mat_to_cols(proj);
    let eye = camera.position();
    let mut words: Vec<u32> = Vec::new();
    for j in 0..CAMERA_WORDS
        invariant
            forall|row: int, col: int|
                0 <= row < 4 && 0 <= col < 4 ==> #[trigger] v[col][row] == view[row][col],
            forall|row: int, col: int|
                0 <= row < 4 && 0 <= col < 4 ==> #[trigger] p[col][row] == proj[row][col],
            eye@ == seq![camera.c2w[0][3], camera.c2w[1][3], camera.c2w[2][3]],
            words.len() == j,
            forall|k: int|
                0 <= k < j ==> #[trigger] words[k] == camera_word(*view, *proj, *camera, k),
    {
        let w = if j < 16 {
            v[j / 4][j % 4].bits
        } else if j < 32 {
            p[(j - 16) / 4][(j - 16) % 4].bits
        } else if j < 35 {
            eye[j - 32].bits
        } else if j == 35 {
            camera.width
        } else if j == 36 {
            camera.height
        } else if j == 37 {
            camera.fx.bits
        } else if j == 38 {
            camera.fy.bits
        } else if j == 39 {
            camera.cx.bits
        } else if j == 40 {
            camera.cy.bits
        } else {
            ZERO
        };
        proof {
            if 32 <= j < 35 {
                assert(eye@[j - 32] == eye[j - 32]);
            }
        }
        words.push(w);
    }
    assert(words@ =~= camera_words(*view, *proj, *camera));
    bytes_of_words(&words)
}

// ── splats ──────────────────────────────────────────────────────────────────────────────

/// A Gaussian as the card projects it.
#[derive(Clone, Copy, Debug, PartialEq, Eq, Structural)]
pub struct SplatInfo2D {
    pub sx: Single,
    pub sy: Single,
    pub conic_a: Single,
    pub conic_b: Single,
    pub conic_c: Single,
    pub color_r: Single,
    pub color_g: Single,
    pub color_b: Single,
    pub alpha: Single,
    pub depth: Single,
}

/// The splat that stands in `words` from `at` on.
pub open spec fn splat_at(words: Seq<u32>, at: int) -> SplatInfo2D {
    SplatInfo2D {
        sx: Single { bits: words[at] },
        sy: Single { bits: words[at + 1] },
        conic_a: Single { bits: words[at + 2] },
        conic_b: Single { bits: words[at + 3] },
        conic_c: Single { bits: words[at + 4] },
        color_r: Single { bits: words[at + 5] },
        color_g: Single { bits: words[at + 6] },
        color_b: Single { bits: words[at + 7] },
        alpha: Single { bits: words[at + 8] },
        depth: Single { bits: words[at + 9] },
    }
}

/// The first `n` splats in `words`.
pub open spec fn splats_in(words: Seq<u32>, n: nat) -> Seq<SplatInfo2D> {
    Seq::new(n, |i: int| splat_at(words, SPLAT_WORDS * i))
}

/// The first `n` splats of a buffer that came back.
pub fn download_splats(bytes: &[u8], n: usize) -> (r: Vec<SplatInfo2D>)
    requires
        bytes.len() % 4 == 0,
        n * SPLAT_WORDS * 4 <= bytes.len(),
    ensures
        exists|words: Seq<u32>| #[trigger]
            in_memory(words, bytes@) && r@ == splats_in(words, n as nat),
{
    let words = words_of_bytes(bytes);
    let mut r: Vec<SplatInfo2D> = Vec::new();
    for i in 0..n
        invariant
            n * SPLAT_WORDS <= words.len(),
            r@ == splats_in(words@, i as nat),
    {
        let at = SPLAT_WORDS * i;
        let s = SplatInfo2D {
            sx: Single { bits: words[at] },
            sy: Single { bits: words[at + 1] },
            conic_a: Single { bits: words[at + 2] },
            conic_b: Single { bits: words[at + 3] },
            conic_c: Single { bits: words[at + 4] },
            color_r: Single { bits: words[at + 5] },
            color_g: Single { bits: words[at + 6] },
            color_b: Single { bits: words[at + 7] },
            alpha: Single { bits: words[at + 8] },
            depth: Single { bits: words[at + 9] },
        };
        r.push(s);
        assert(r@ =~= splats_in(words@, (i + 1) as nat));
    }
    r
}

// ── the dispatch ────────────────────────────────────────────────────────────────────────

/// How much the projection of some Gaussians takes.
#[derive(Clone, Copy, Debug, PartialEq, Eq, Structural)]
pub struct Dispatch {
    /// Bytes of the splats and of the depth keys that come out.
    pub splat_bytes: u64,
    pub key_bytes: u64,
    /// Groups of threads, one thread per Gaussian.
    pub groups: u32,
}

/// What the projection of `n` Gaussians takes; nothing is asked of the card without any.
pub fn dispatch(n: usize) -> (r: Option<Dispatch>)
    requires
        n * SPLAT_WORDS * 4 <= usize::MAX,
        n + 255 <= usize::MAX,
        (n + 255) / 256 <= u32::MAX,
    ensures
        r is None <==> n == 0,
        r matches Some(d) ==> {
            &&& d.splat_bytes == n * SPLAT_WORDS * 4
            &&& d.key_bytes == n * 4
            &&& d.groups == (n + 255) / 256
        },
{
    if n == 0 {
        return None;
    }
    Some(
        Dispatch {
            splat_bytes: (n * SPLAT_WORDS * 4) as u64,
            key_bytes: (n * 4) as u64,
            groups: ((n + 255) / GROUP_SIZE) as u32,
        },
    )
}

/// There is a thread for each Gaussian, and no group without one.
pub proof fn groups_cover(n: int)
    requires
        n > 0,
    ensures
        ((n + 255) / 256) * 256 >= n,
        ((n + 255) / 256 - 1) * 256 < n,
{
}

} // verus!
