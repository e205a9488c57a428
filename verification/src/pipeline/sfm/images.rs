//! `images.bin`: the poses of the registered images.

use super::SfmFault;
use crate::num::bytes::{u32_at, u32_of_le, u64_at, u64_of_le};
use crate::num::single::Double;
use crate::num::text::{lossy_text, utf8_lossy};
use vstd::prelude::*;
use vstd::slice::slice_subrange;

verus! {

/// A registered image: the rotation (`w, x, y, z`) and the shift that take the world to the
/// camera, which camera took it, and its file name.
#[derive(Clone, Debug)]
pub struct ColmapImage {
    pub image_id: u32,
    pub qvec: [Double; 4],
    pub tvec: [Double; 3],
    pub camera_id: u32,
    pub name: String,
}

/// A registered image, with its name as text.
pub struct ImageView {
    pub image_id: u32,
    pub qvec: [Double; 4],
    pub tvec: [Double; 3],
    pub camera_id: u32,
    pub name: Seq<char>,
}

impl View for ColmapImage {
    type V = ImageView;

    open spec fn view(&self) -> ImageView {
        ImageView {
            image_id: self.image_id,
            qvec: self.qvec,
            tvec: self.tvec,
            camera_id: self.camera_id,
            name: self.name@,
        }
    }
}

/// The bytes of one image in memory.
pub const IMAGE_BYTES: u64 = 88;

/// The bytes of one image in a file, before its name.
pub const IMAGE_RECORD: usize = 64;

/// Where the first zero byte from `at` on stands.
pub open spec fn nul_from(data: Seq<u8>, at: int) -> Option<int>
    decreases data.len() - at,
{
    if at >= data.len() {
        None
    } else if data[at] == 0 {
        Some(at)
    } else {
        nul_from(data, at + 1)
    }
}

pub open spec fn double_at(data: Seq<u8>, at: int) -> Double {
    Double { bits: u64_of_le(data.skip(at)) }
}

/// The image at byte `at`, and where the next one begins.  Its name ends in a zero byte, and
/// what is not UTF-8 in it is replaced; each of its observations has 24 bytes.
pub open spec fn image_at(data: Seq<u8>, at: int) -> Result<(ImageView, int), SfmFault> {
    if at + IMAGE_RECORD > data.len() {
        Err(SfmFault::End)
    } else {
        match nul_from(data, at + IMAGE_RECORD) {
            None => Err(SfmFault::End),
            Some(z) => {
                let seen = u64_of_le(data.skip(z + 1));
                if z + 9 > data.len() {
                    Err(SfmFault::End)
                } else if seen * 24 > isize::MAX {
                    Err(SfmFault::CapacityOverflow)
                } else if z + 9 + seen * 24 > data.len() {
                    Err(SfmFault::End)
                } else {
                    let image = ImageView {
                        image_id: u32_of_le(data.skip(at)),
                        qvec: [
                            double_at(data, at + 4),
                            double_at(data, at + 12),
                            double_at(data, at + 20),
                            double_at(data, at + 28),
                        ],
                        tvec: [
                            double_at(data, at + 36),
                            double_at(data, at + 44),
                            double_at(data, at + 52),
                        ],
                        camera_id: u32_of_le(data.skip(at + 60)),
                        name: utf8_lossy(data.subrange(at + IMAGE_RECORD, z)),
                    };
                    Ok((image, z + 9 + seen * 24))
                }
            },
        }
    }
}

/// The images `done`, followed by `n` images from byte `at` on.
pub open spec fn images_from(data: Seq<u8>, at: int, n: nat, done: Seq<ImageView>) -> Result<
    Seq<ImageView>,
    SfmFault,
>
    decreases n,
{
    if n == 0 {
        Ok(done)
    } else {
        match image_at(data, at) {
            Ok((image, next)) => images_from(data, next, (n - 1) as nat, done.push(image)),
            Err(e) => Err(e),
        }
    }
}

/// The images of a file: a count, then that many images.
pub open spec fn images_of(data: Seq<u8>) -> Result<Seq<ImageView>, SfmFault> {
    let n = u64_of_le(data);
    if data.len() < 8 {
        Err(SfmFault::End)
    } else if n * IMAGE_BYTES > isize::MAX {
        Err(SfmFault::CapacityOverflow)
    } else {
        images_from(data, 8, n as nat, Seq::empty())
    }
}

/// What the images say.
pub open spec fn views(images: Seq<ColmapImage>) -> Seq<ImageView> {
    images.map_values(|i: ColmapImage| i@)
}

fn find_nul(data: &[u8], at: usize) -> (r: Option<usize>)
    requires
        at <= data.len(),
    ensures
        match (r, nul_from(data@, at as int)) {
            (Some(a), Some(b)) => a == b && at <= a < data.len(),
            (None, None) => true,
            _ => false,
        },
{
    let mut i = at;
    while i < data.len()
        invariant
            at <= i <= data.len(),
            nul_from(data@, at as int) == nul_from(data@, i as int),
        decreases data.len() - i,
    {
        if data[i] == 0 {
            return Some(i);
        }
        i += 1;
    }
    None
}

fn read_image(data: &[u8], at: usize) -> (r: Result<(ColmapImage, usize), SfmFault>)
    requires
        at <= data.len(),
    ensures
        match (r, image_at(data@, at as int)) {
            (Ok(a), Ok(b)) => a.0@ == b.0 && a.1 == b.1 && a.1 <= data.len(),
            (Err(a), Err(b)) => a == b,
            _ => false,
        },
{
    if data.len() - at < IMAGE_RECORD {
        return Err(SfmFault::End);
    }
    let z = match find_nul(data, at + IMAGE_RECORD) {
        Some(z) => z,
        None => {
            return Err(SfmFault::End);
        },
    };
    if data.len() - z < 9 {
        return Err(SfmFault::End);
    }
    let seen = u64_at(data, z + 1);
    if seen > isize::MAX as u64 / 24 {
        return Err(SfmFault::CapacityOverflow);
    }
    let skip: usize = seen as usize * 24;
    if data.len() - z - 9 < skip {
        return Err(SfmFault::End);
    }
    let image = ColmapImage {
        image_id: u32_at(data, at),
        qvec: [
            Double { bits: u64_at(data, at + 4) },
            Double { bits: u64_at(data, at + 12) },
            Double { bits: u64_at(data, at + 20) },
            Double { bits: u64_at(data, at + 28) },
        ],
        tvec: [
            Double { bits: u64_at(data, at + 36) },
            Double { bits: u64_at(data, at + 44) },
            Double { bits: u64_at(data, at + 52) },
        ],
        camera_id: u32_at(data, at + 60),
        name: lossy_text(slice_subrange(data, at + IMAGE_RECORD, z)),
    };
    Ok((image, z + 9 + skip))
}

/// Reads `images.bin`.
pub fn parse_images_bin(data: &[u8]) -> (r: Result<Vec<ColmapImage>, SfmFault>)
    ensures
        match (r, images_of(data@)) {
            (Ok(a), Ok(b)) => views(a@) == b,
            (Err(a), Err(b)) => a == b,
            _ => false,
        },
{
    if data.len() < 8 {
        return Err(SfmFault::End);
    }
    assert(data@.skip(0) =~= data@);
    let n = u64_at(data, 0);
    if n > isize::MAX as u64 / IMAGE_BYTES {
        return Err(SfmFault::CapacityOverflow);
    }
    let mut images: Vec<ColmapImage> = Vec::new();
    let mut at: usize = 8;
    let mut i: u64 = 0;
    assert(views(images@) =~= Seq::<ImageView>::empty());
    while i < n
        invariant
            i <= n,
            at <= data.len(),
            images_of(data@) == images_from(data@, at as int, (n - i) as nat, views(images@)),
        decreases n - i,
    {
        let ghost before = images@;
        match read_image(data, at) {
            Ok((image, next)) => {
                images.push(image);
                assert(views(images@) =~= views(before).push(image@));
                at = next;
            },
            Err(e) => {
                return Err(e);
            },
        }
        i += 1;
    }
    Ok(images)
}

} // verus!
