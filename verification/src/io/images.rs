//! Training targets: decoded images as linear values, at their camera's resolution.
//!
//! The kernels: `linear` decodes a colour byte, `coverage` a byte of the fourth channel.

use crate::num::single::{Single, ONE, ZERO};
use vstd::prelude::*;

verus! {

/// A decoded image of the `image` crate, of any pixel type.
#[verifier::external_type_specification]
#[verifier::external_body]
pub struct ExDynamicImage(image::DynamicImage);

/// The width and the height of an image.
pub uninterp spec fn image_size(img: image::DynamicImage) -> (u32, u32);

/// The pixels of an image as bytes: red, green, blue and coverage of each, row by row.
pub uninterp spec fn rgba_bytes(img: image::DynamicImage) -> Seq<u8>;

/// The pixels of an image that is resampled to the given width and height with the triangle
/// filter, as bytes.
pub uninterp spec fn resampled_bytes(img: image::DynamicImage, w: u32, h: u32) -> Seq<u8>;

/// Calls [`image::DynamicImage::width`].
#[verifier::external_body]
fn width_of(img: &image::DynamicImage) -> (r: u32)
    ensures
        r == image_size(*img).0,
{
    img.width()
}

/// Calls [`image::DynamicImage::height`].
#[verifier::external_body]
fn height_of(img: &image::DynamicImage) -> (r: u32)
    ensures
        r == image_size(*img).1,
{
    img.height()
}

/// Up to this side, an image can be resampled to any other.
pub const LONG_SIDE: u32 = 0x40_0000;

/// Up to this side, an image can be resampled from any other.
pub const LONG_NEW_SIDE: u32 = 0x80_0000;

/// Whether a side of `n` pixels can be resampled to one of `m`.
///
/// The call finds in single precision where a new pixel falls on the given image, and panics
/// where the last of them falls beyond its last pixel.  Two roundings move it by less than
/// half a pixel where `n` is at most `2^22`.  Where `m` is at most `2^23`, the middle of a new
/// pixel is exact, and stands far enough before the end for the roundings.  Where both are
/// longer the call can panic, as it does from `8_388_610` pixels to as many, or from
/// `4_429_467` to `8_771_446`.
pub open spec fn resizable(n: u32, m: u32) -> bool {
    n <= LONG_SIDE || m <= LONG_NEW_SIDE
}

/// Whether an image of `iw` by `ih` pixels can be resampled to `w` by `h`: both its sides can,
/// or one of the images is empty, and memory can be asked for the result and for the image that
/// is resampled along its columns first.  A pixel takes up to 16 bytes there.
pub open spec fn can_resample(iw: u32, ih: u32, w: u32, h: u32) -> bool {
    &&& iw == 0 || ih == 0 || w == 0 || h == 0 || (resizable(iw, w) && resizable(ih, h))
    &&& iw * h * 16 <= isize::MAX
    &&& w * h * 16 <= isize::MAX
}

/// Calls [`image::DynamicImage::resize_exact`] with the triangle filter: an image of the
/// given size, whose pixels depend on the image and that size alone and are not described
/// further.
#[verifier::external_body]
fn resample(img: &image::DynamicImage, w: u32, h: u32) -> (r: image::DynamicImage)
    requires
        can_resample(image_size(*img).0, image_size(*img).1, w, h),
    ensures
        image_size(r) == (w, h),
        rgba_bytes(r) == resampled_bytes(*img, w, h),
{
    img.resize_exact(w, h, image::imageops::FilterType::Triangle)
}

/// Calls [`image::DynamicImage::to_rgba8`]: four bytes for each pixel, and possibly more
/// behind them, where the image was made with a longer buffer.
#[verifier::external_body]
fn to_rgba(img: &image::DynamicImage) -> (r: Vec<u8>)
    ensures
        r@ == rgba_bytes(*img),
        r.len() >= 4 * (image_size(*img).0 * image_size(*img).1),
{
    img.to_rgba8().into_raw()
}

/// A training target: four linear channels per pixel, row by row.
pub struct TargetImage {
    pub width: usize,
    pub height: usize,
    pub data: Vec<Single>,
}

impl TargetImage {
    /// There is a value for each channel of each pixel.
    pub open spec fn wf(&self) -> bool {
        self.data.len() == self.width * self.height * 4
    }

    /// A black, opaque image.
    pub fn black(width: usize, height: usize) -> (r: TargetImage)
        requires
            width * height * 4 <= usize::MAX,
        ensures
            r.wf(),
            r.width == width,
            r.height == height,
            forall|i: int|
                0 <= i < r.data.len() ==> #[trigger] r.data[i] == (Single {
                    bits: if i % 4 == 3 {
                        ONE
                    } else {
                        ZERO
                    },
                }),
    {
        assert(width * height <= usize::MAX) by (nonlinear_arith)
            requires
                width * height * 4 <= usize::MAX,
                0 <= width,
                0 <= height,
        ;
        let mut data: Vec<Single> = Vec::new();
        for i in 0..width * height * 4
            invariant
                data.len() == i,
                forall|j: int|
                    0 <= j < i ==> #[trigger] data[j] == (Single {
                        bits: if j % 4 == 3 {
                            ONE
                        } else {
                            ZERO
                        },
                    }),
        {
            if i % 4 == 3 {
                data.push(Single { bits: ONE });
            } else {
                data.push(Single { bits: ZERO });
            }
        }
        TargetImage { width, height, data }
    }
}

/// `t` can be the target made of the bytes `rgba`.
pub open spec fn linearised<L: Fn(u8) -> Single, C: Fn(u8) -> Single>(
    linear: L,
    coverage: C,
    rgba: Seq<u8>,
    t: TargetImage,
) -> bool {
    &&& t.wf()
    &&& forall|i: int|
        0 <= i < t.data.len() ==> if i % 4 == 3 {
            call_ensures(coverage, (rgba[i],), #[trigger] t.data[i])
        } else {
            call_ensures(linear, (rgba[i],), t.data[i])
        }
}

/// Decodes the bytes of a `w` by `h` image.
pub fn linear_image<L: Fn(u8) -> Single, C: Fn(u8) -> Single>(
    linear: L,
    coverage: C,
    rgba: &[u8],
    w: usize,
    h: usize,
) -> (r: TargetImage)
    requires
        forall|b: u8| call_requires(linear, (b,)),
        forall|b: u8| call_requires(coverage, (b,)),
        w * h * 4 <= rgba.len(),
    ensures
        r.width == w,
        r.height == h,
        linearised(linear, coverage, rgba@, r),
{
    assert(w * h <= usize::MAX) by (nonlinear_arith)
        requires
            w * h * 4 <= usize::MAX,
            0 <= w,
            0 <= h,
    ;
    let mut data: Vec<Single> = Vec::new();
    for i in 0..w * h * 4
        invariant
            forall|b: u8| call_requires(linear, (b,)),
            forall|b: u8| call_requires(coverage, (b,)),
            w * h * 4 <= rgba.len(),
            data.len() == i,
            forall|j: int|
                0 <= j < i ==> if j % 4 == 3 {
                    call_ensures(coverage, (rgba[j],), #[trigger] data[j])
                } else {
                    call_ensures(linear, (rgba[j],), data[j])
                },
    {
        let b = rgba[i];
        let v = if i % 4 == 3 {
            coverage(b)
        } else {
            linear(b)
        };
        data.push(v);
    }
    TargetImage { width: w, height: h, data }
}

/// The bytes that are decoded: those of the given image where it has the right size, else
/// those of the resampled one.
pub open spec fn fitted(img: image::DynamicImage, w: u32, h: u32) -> Seq<u8> {
    if image_size(img) == (w, h) {
        rgba_bytes(img)
    } else {
        resampled_bytes(img, w, h)
    }
}

/// Whether an image would have to be resampled, and cannot be.
pub open spec fn too_large(img: image::DynamicImage, w: u32, h: u32) -> bool {
    &&& image_size(img) != (w, h)
    &&& !can_resample(image_size(img).0, image_size(img).1, w, h)
}

/// The training target for a decoded image, at `w` by `h` pixels; nothing, where the image is
/// too large to be resampled.
pub fn load_target<L: Fn(u8) -> Single, C: Fn(u8) -> Single>(
    linear: L,
    coverage: C,
    img: image::DynamicImage,
    w: u32,
    h: u32,
) -> (r: Option<TargetImage>)
    requires
        forall|b: u8| call_requires(linear, (b,)),
        forall|b: u8| call_requires(coverage, (b,)),
    ensures
        match r {
            None => too_large(img, w, h),
            Some(t) => {
                &&& !too_large(img, w, h)
                &&& t.width == w
                &&& t.height == h
                &&& linearised(linear, coverage, fitted(img, w, h), t)
            },
        },
{
    let (iw, ih) = (width_of(&img), height_of(&img));
    let img = if iw != w || ih != h {
        let empty = iw == 0 || ih == 0 || w == 0 || h == 0;
        let wide = iw > LONG_SIDE && w > LONG_NEW_SIDE;
        let high = ih > LONG_SIDE && h > LONG_NEW_SIDE;
        if !empty && (wide || high) {
            return None;
        }
        assert(iw * h <= u64::MAX && w * h <= u64::MAX) by (nonlinear_arith)
            requires
                iw <= u32::MAX,
                w <= u32::MAX,
                h <= u32::MAX,
        ;
        let limit: u128 = isize::MAX as u128;
        if iw as u128 * h as u128 * 16 > limit || w as u128 * h as u128 * 16 > limit {
            return None;
        }
        resample(&img, w, h)
    } else {
        img
    };
    let rgba = to_rgba(&img);
    assert(w as usize * h as usize * 4 == 4 * (w * h)) by (nonlinear_arith);
    Some(linear_image(linear, coverage, &rgba, w as usize, h as usize))
}

// ── colours ─────────────────────────────────────────────────────────────────────────────

/// The pattern of `0.04045`: up to here the sRGB curve is straight.
pub const SRGB_KNEE: u32 = 0x3D25_AEE6;

/// From sRGB to linear light, by the straight part of the curve or the curved one.
pub fn srgb_to_linear<S: Fn(Single) -> Single, C: Fn(Single) -> Single>(
    straight: S,
    curved: C,
    x: Single,
) -> (r: Single)
    requires
        forall|v: Single| call_requires(straight, (v,)),
        forall|v: Single| call_requires(curved, (v,)),
    ensures
        if x.at_most(Single { bits: SRGB_KNEE }) {
            call_ensures(straight, (x,), r)
        } else {
            call_ensures(curved, (x,), r)
        },
{
    if x.le(Single { bits: SRGB_KNEE }) {
        straight(x)
    } else {
        curved(x)
    }
}

} // verus!
