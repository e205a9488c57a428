//! What is written in COLMAP's binary format is read back.

use super::cameras::{camera_at, camera_param, cameras_from, model_params, signed_of, CameraRecord};
use super::images::{double_at, image_at, images_from, nul_from, ImageView};
use super::points::{point_at, points_from, points_of, SfMPoint};
use super::SfmFault;
use crate::num::bytes::{u32_of_le, u64_of_le};
use crate::num::single::Double;
use crate::num::text::utf8_lossy;
use vstd::prelude::*;

verus! {

/// A number below `2^32` in four bytes, the lowest first.
#[verifier::opaque]
pub open spec fn four(x: int) -> Seq<u8> {
    seq![
        (x % 0x100) as u8,
        (x / 0x100 % 0x100) as u8,
        (x / 0x1_0000 % 0x100) as u8,
        (x / 0x100_0000 % 0x100) as u8,
    ]
}

/// A number below `2^64` in eight bytes, the lowest first.
#[verifier::opaque]
pub open spec fn eight(x: int) -> Seq<u8> {
    four(x % 0x1_0000_0000) + four(x / 0x1_0000_0000)
}

/// `data` holds the bytes `b` from place `at` on.
#[verifier::opaque]
pub open spec fn holds_at(data: Seq<u8>, at: int, b: Seq<u8>) -> bool {
    &&& 0 <= at
    &&& at + b.len() <= data.len()
    &&& forall|j: int| #![trigger b[j]] 0 <= j < b.len() ==> data[at + j] == b[j]
}

proof fn lemma_holds_part(data: Seq<u8>, at: int, a: Seq<u8>, b: Seq<u8>)
    requires
        holds_at(data, at, a + b),
    ensures
        holds_at(data, at, a),
        holds_at(data, at + a.len(), b),
        0 <= at,
        at + a.len() + b.len() <= data.len(),
{
    reveal(holds_at);
    assert forall|j: int| #![trigger a[j]] 0 <= j < a.len() implies data[at + j] == a[j] by {
        assert((a + b)[j] == a[j]);
    }
    assert forall|j: int| #![trigger b[j]] 0 <= j < b.len() implies data[at + a.len() + j] == b[j] by {
        assert((a + b)[a.len() + j] == b[j]);
    }
}

proof fn lemma_sizes()
    ensures
        forall|x: int| (#[trigger] four(x)).len() == 4,
        forall|x: int| (#[trigger] eight(x)).len() == 8,
{
    reveal(four);
    reveal(eight);
}

proof fn lemma_byte(data: Seq<u8>, at: int, b: Seq<u8>, j: int)
    requires
        holds_at(data, at, b),
        0 <= j < b.len(),
    ensures
        data[at + j] == b[j],
        at + b.len() <= data.len(),
        0 <= at,
{
    reveal(holds_at);
}

proof fn lemma_four(data: Seq<u8>, at: int, x: int)
    requires
        0 <= x < 0x1_0000_0000,
        holds_at(data, at, four(x)),
    ensures
        u32_of_le(data.skip(at)) == x,
{
    reveal(four);
    reveal(holds_at);
    let d = data.skip(at);
    let b = four(x);
    assert(d[0] == b[0] && d[1] == b[1] && d[2] == b[2] && d[3] == b[3]) by {
        assert(data[at + 0] == b[0]);
        assert(data[at + 1] == b[1]);
        assert(data[at + 2] == b[2]);
        assert(data[at + 3] == b[3]);
    }
    assert(x == x % 0x100 + 0x100 * (x / 0x100 % 0x100) + 0x1_0000 * (x / 0x1_0000 % 0x100)
        + 0x100_0000 * (x / 0x100_0000 % 0x100));
}

proof fn lemma_eight(data: Seq<u8>, at: int, x: int)
    requires
        0 <= x < 0x1_0000_0000_0000_0000,
        holds_at(data, at, eight(x)),
    ensures
        u64_of_le(data.skip(at)) == x,
{
    reveal(eight);
    lemma_sizes();
    let (lo, hi) = (x % 0x1_0000_0000, x / 0x1_0000_0000);
    lemma_holds_part(data, at, four(lo), four(hi));
    lemma_four(data, at, lo);
    lemma_four(data, at + 4, hi);
    assert(data.skip(at).skip(4) =~= data.skip(at + 4));
}

proof fn lemma_double(data: Seq<u8>, at: int, d: Double)
    requires
        holds_at(data, at, eight(d.bits as int)),
    ensures
        (Double { bits: u64_of_le(data.skip(at)) }) == d,
{
    lemma_eight(data, at, d.bits as int);
}

// ── points ──────────────────────────────────────────────────────────────────────────────

/// The record of a point: its number, its place, its colour, its error, how long its track is,
/// and the track.
#[verifier::opaque]
pub open spec fn point_record(p: SfMPoint, track: Seq<u8>) -> Seq<u8> {
    eight(p.id as int) + (eight(p.xyz[0].bits as int) + (eight(p.xyz[1].bits as int) + (eight(
        p.xyz[2].bits as int,
    ) + (seq![p.rgb[0], p.rgb[1], p.rgb[2]] + (eight(p.error.bits as int) + (eight(
        p.track_length as int,
    ) + track))))))
}

proof fn lemma_point(data: Seq<u8>, at: int, p: SfMPoint, track: Seq<u8>)
    requires
        holds_at(data, at, point_record(p, track)),
        track.len() == 8 * p.track_length,
        8 * p.track_length <= isize::MAX,
    ensures
        point_at(data, at) == Ok::<(SfMPoint, int), SfmFault>(
            (p, at + point_record(p, track).len()),
        ),
{
    reveal(point_record);
    lemma_sizes();
    let rgb = seq![p.rgb[0], p.rgb[1], p.rgb[2]];
    let r6 = eight(p.track_length as int) + track;
    let r5 = eight(p.error.bits as int) + r6;
    let r4 = rgb + r5;
    let r3 = eight(p.xyz[2].bits as int) + r4;
    let r2 = eight(p.xyz[1].bits as int) + r3;
    let r1 = eight(p.xyz[0].bits as int) + r2;
    lemma_holds_part(data, at, eight(p.id as int), r1);
    lemma_holds_part(data, at + 8, eight(p.xyz[0].bits as int), r2);
    lemma_holds_part(data, at + 16, eight(p.xyz[1].bits as int), r3);
    lemma_holds_part(data, at + 24, eight(p.xyz[2].bits as int), r4);
    lemma_holds_part(data, at + 32, rgb, r5);
    lemma_holds_part(data, at + 35, eight(p.error.bits as int), r6);
    lemma_holds_part(data, at + 43, eight(p.track_length as int), track);
    lemma_eight(data, at, p.id as int);
    lemma_double(data, at + 8, p.xyz[0]);
    lemma_double(data, at + 16, p.xyz[1]);
    lemma_double(data, at + 24, p.xyz[2]);
    lemma_double(data, at + 35, p.error);
    lemma_eight(data, at + 43, p.track_length as int);
    lemma_byte(data, at + 32, rgb, 0);
    lemma_byte(data, at + 32, rgb, 1);
    lemma_byte(data, at + 32, rgb, 2);
    let xyz = [
        Double { bits: u64_of_le(data.skip(at + 8)) },
        Double { bits: u64_of_le(data.skip(at + 16)) },
        Double { bits: u64_of_le(data.skip(at + 24)) },
    ];
    let c = [data[at + 32], data[at + 33], data[at + 34]];
    assert(xyz =~= p.xyz);
    assert(c =~= p.rgb);
}

/// The records of points, one after the other.
pub open spec fn point_records(ps: Seq<SfMPoint>, tracks: Seq<Seq<u8>>) -> Seq<u8>
    decreases ps.len(),
{
    if ps.len() == 0 {
        Seq::empty()
    } else {
        point_record(ps[0], tracks[0]) + point_records(ps.skip(1), tracks.skip(1))
    }
}

proof fn lemma_points(
    data: Seq<u8>,
    at: int,
    ps: Seq<SfMPoint>,
    tracks: Seq<Seq<u8>>,
    done: Seq<SfMPoint>,
)
    requires
        tracks.len() == ps.len(),
        forall|i: int|
            0 <= i < ps.len() ==> (#[trigger] tracks[i]).len() == 8 * ps[i].track_length && 8
                * ps[i].track_length <= isize::MAX,
        holds_at(data, at, point_records(ps, tracks)),
    ensures
        points_from(data, at, ps.len(), done) == Ok::<Seq<SfMPoint>, SfmFault>(done + ps),
    decreases ps.len(),
{
    if ps.len() == 0 {
        assert(done + ps =~= done);
    } else {
        let (p, t) = (ps[0], tracks[0]);
        let rest = point_records(ps.skip(1), tracks.skip(1));
        lemma_holds_part(data, at, point_record(p, t), rest);
        assert(t.len() == 8 * p.track_length);
        lemma_point(data, at, p, t);
        assert forall|i: int| 0 <= i < ps.skip(1).len() implies (#[trigger] tracks.skip(1)[i]).len()
            == 8 * ps.skip(1)[i].track_length && 8 * ps.skip(1)[i].track_length <= isize::MAX by {
            assert(tracks[i + 1].len() == 8 * ps[i + 1].track_length);
        }
        lemma_points(
            data,
            at + point_record(p, t).len(),
            ps.skip(1),
            tracks.skip(1),
            done.push(p),
        );
        assert(done.push(p) + ps.skip(1) =~= done + ps);
    }
}

/// A file of points is read as the points that it was written for, whatever their tracks.
pub proof fn written_points_are_read(ps: Seq<SfMPoint>, tracks: Seq<Seq<u8>>)
    requires
        tracks.len() == ps.len(),
        forall|i: int|
            0 <= i < ps.len() ==> (#[trigger] tracks[i]).len() == 8 * ps[i].track_length && 8
                * ps[i].track_length <= isize::MAX,
        56 * ps.len() <= isize::MAX,
    ensures
        points_of(eight(ps.len() as int) + point_records(ps, tracks)) == Ok::<
            Seq<SfMPoint>,
            SfmFault,
        >(ps),
{
    let head = eight(ps.len() as int);
    let body = point_records(ps, tracks);
    let data = head + body;
    lemma_sizes();
    assert(holds_at(data, 0, head + body)) by {
        reveal(holds_at);
    }
    lemma_holds_part(data, 0, head, body);
    lemma_eight(data, 0, ps.len() as int);
    assert(data.skip(0) =~= data);
    lemma_points(data, 8, ps, tracks, Seq::empty());
    assert(Seq::<SfMPoint>::empty() + ps =~= ps);
}

// ── images ──────────────────────────────────────────────────────────────────────────────

/// The record of an image: its number, its rotation and translation, the number of its camera,
/// its name with a zero at the end, how many points it sees, and these.
pub open spec fn image_record(i: ImageView, name: Seq<u8>, seen: int, points: Seq<u8>) -> Seq<u8> {
    four(i.image_id as int) + (eight(i.qvec[0].bits as int) + (eight(i.qvec[1].bits as int) + (eight(
        i.qvec[2].bits as int,
    ) + (eight(i.qvec[3].bits as int) + (eight(i.tvec[0].bits as int) + (eight(
        i.tvec[1].bits as int,
    ) + (eight(i.tvec[2].bits as int) + (four(i.camera_id as int) + (name + (seq![0u8] + (eight(seen)
        + points)))))))))))
}

proof fn lemma_nul(data: Seq<u8>, at: int, name: Seq<u8>)
    requires
        holds_at(data, at, name),
        forall|j: int| 0 <= j < name.len() ==> #[trigger] name[j] != 0,
        at + name.len() < data.len(),
        data[at + name.len()] == 0,
    ensures
        nul_from(data, at) == Some(at + name.len()),
    decreases name.len(),
{
    reveal(holds_at);
    if name.len() > 0 {
        let rest = name.skip(1);
        assert(data[at + 0] == name[0]);
        assert forall|j: int| #![trigger rest[j]] 0 <= j < rest.len() implies data[at + 1 + j]
            == rest[j] && rest[j] != 0 by {
            assert(data[at + (j + 1)] == name[j + 1]);
        }
        lemma_nul(data, at + 1, rest);
    }
}

/// An image is read as it was written: its pose, its camera and its name.
pub proof fn written_images_are_read(
    data: Seq<u8>,
    at: int,
    i: ImageView,
    name: Seq<u8>,
    seen: int,
    points: Seq<u8>,
)
    requires
        holds_at(data, at, image_record(i, name, seen, points)),
        forall|j: int| 0 <= j < name.len() ==> #[trigger] name[j] != 0,
        i.name == utf8_lossy(name),
        0 <= seen,
        points.len() == 24 * seen,
        24 * seen <= isize::MAX,
    ensures
        image_at(data, at) == Ok::<(ImageView, int), SfmFault>(
            (i, at + image_record(i, name, seen, points).len()),
        ),
{
    lemma_sizes();
    let zero = seq![0u8];
    let s11 = eight(seen) + points;
    let s10 = zero + s11;
    let s9 = name + s10;
    let s8 = four(i.camera_id as int) + s9;
    let s7 = eight(i.tvec[2].bits as int) + s8;
    let s6 = eight(i.tvec[1].bits as int) + s7;
    let s5 = eight(i.tvec[0].bits as int) + s6;
    let s4 = eight(i.qvec[3].bits as int) + s5;
    let s3 = eight(i.qvec[2].bits as int) + s4;
    let s2 = eight(i.qvec[1].bits as int) + s3;
    let s1 = eight(i.qvec[0].bits as int) + s2;
    lemma_holds_part(data, at, four(i.image_id as int), s1);
    lemma_holds_part(data, at + 4, eight(i.qvec[0].bits as int), s2);
    lemma_holds_part(data, at + 12, eight(i.qvec[1].bits as int), s3);
    lemma_holds_part(data, at + 20, eight(i.qvec[2].bits as int), s4);
    lemma_holds_part(data, at + 28, eight(i.qvec[3].bits as int), s5);
    lemma_holds_part(data, at + 36, eight(i.tvec[0].bits as int), s6);
    lemma_holds_part(data, at + 44, eight(i.tvec[1].bits as int), s7);
    lemma_holds_part(data, at + 52, eight(i.tvec[2].bits as int), s8);
    lemma_holds_part(data, at + 60, four(i.camera_id as int), s9);
    lemma_holds_part(data, at + 64, name, s10);
    let z = at + 64 + name.len();
    lemma_holds_part(data, z, zero, s11);
    lemma_holds_part(data, z + 1, eight(seen), points);
    lemma_four(data, at, i.image_id as int);
    lemma_double(data, at + 4, i.qvec[0]);
    lemma_double(data, at + 12, i.qvec[1]);
    lemma_double(data, at + 20, i.qvec[2]);
    lemma_double(data, at + 28, i.qvec[3]);
    lemma_double(data, at + 36, i.tvec[0]);
    lemma_double(data, at + 44, i.tvec[1]);
    lemma_double(data, at + 52, i.tvec[2]);
    lemma_four(data, at + 60, i.camera_id as int);
    lemma_eight(data, z + 1, seen);
    lemma_byte(data, z, zero, 0);
    lemma_nul(data, at + 64, name);
    assert(data.subrange(at + 64, z) =~= name) by {
        assert forall|j: int| 0 <= j < name.len() implies data.subrange(at + 64, z)[j] == name[j] by {
            lemma_byte(data, at + 64, name, j);
        }
    }
    let q = [
        double_at(data, at + 4),
        double_at(data, at + 12),
        double_at(data, at + 20),
        double_at(data, at + 28),
    ];
    let t = [double_at(data, at + 36), double_at(data, at + 44), double_at(data, at + 52)];
    assert(q =~= i.qvec);
    assert(t =~= i.tvec);
}

/// The images of a file are read one after the other, as many as it says.
pub proof fn images_are_read_in_turn(data: Seq<u8>, at: int, n: nat, done: Seq<ImageView>)
    requires
        n > 0,
        image_at(data, at) is Ok,
    ensures
        images_from(data, at, n, done) == images_from(
            data,
            image_at(data, at)->Ok_0.1,
            (n - 1) as nat,
            done.push(image_at(data, at)->Ok_0.0),
        ),
        images_from(data, at, 0, done) == Ok::<Seq<ImageView>, SfmFault>(done),
{
}

// ── cameras ─────────────────────────────────────────────────────────────────────────────

/// Parameters, eight bytes each.
pub open spec fn parameters(ps: Seq<Double>) -> Seq<u8>
    decreases ps.len(),
{
    if ps.len() == 0 {
        Seq::empty()
    } else {
        parameters(ps.drop_last()) + eight(ps.last().bits as int)
    }
}

proof fn lemma_parameters(data: Seq<u8>, at: int, ps: Seq<Double>, i: int)
    requires
        holds_at(data, at, parameters(ps)),
        0 <= i < ps.len(),
    ensures
        parameters(ps).len() == 8 * ps.len(),
        (Double { bits: u64_of_le(data.skip(at + 8 * i)) }) == ps[i],
    decreases ps.len(),
{
    lemma_sizes();
    let fewer = ps.drop_last();
    lemma_parameters_len(ps);
    lemma_parameters_len(fewer);
    lemma_holds_part(data, at, parameters(fewer), eight(ps.last().bits as int));
    if i == fewer.len() {
        lemma_double(data, at + 8 * i, ps.last());
    } else {
        lemma_parameters(data, at, fewer, i);
    }
}

proof fn lemma_parameters_len(ps: Seq<Double>)
    ensures
        parameters(ps).len() == 8 * ps.len(),
    decreases ps.len(),
{
    lemma_sizes();
    if ps.len() > 0 {
        lemma_parameters_len(ps.drop_last());
    }
}

/// The record of a camera: its number, its model, its width and height, and its parameters.
#[verifier::opaque]
pub open spec fn camera_record(id: u32, model: u32, w: u64, h: u64, ps: Seq<Double>) -> Seq<u8> {
    four(id as int) + (four(model as int) + (eight(w as int) + (eight(h as int) + parameters(ps))))
}

/// A camera is read as it was written.  The models 1 and 4 begin with a focal length for each
/// axis, the others with one for both; the centre follows.  Model 0 has three parameters, 3 has
/// five, 4 has eight, and all others have four.  Where a side is missing the given size stands
/// in.
#[verifier::rlimit(60)]
pub proof fn written_cameras_are_read(
    data: Seq<u8>,
    at: int,
    id: u32,
    model: u32,
    w: u64,
    h: u64,
    ps: Seq<Double>,
    width: u32,
    height: u32,
)
    requires
        holds_at(data, at, camera_record(id, model, w, h, ps)),
        ps.len() == if model == 0 {
            3int
        } else if model == 3 {
            5
        } else if model == 4 {
            8
        } else {
            4
        },
        w < 0x1_0000_0000,
        h < 0x1_0000_0000,
    ensures
        camera_at(data, at, width, height) matches Ok((c, next)) && {
            &&& next == at + 24 + 8 * ps.len()
            &&& c.id == id
            &&& w > 0 && h > 0 ==> c.width == w && c.height == h
            &&& w == 0 || h == 0 ==> c.width == width && c.height == height
            &&& c.fx == ps[0].narrowed()
            &&& model == 1 || model == 4 ==> c.fy == ps[1].narrowed() && c.cx == ps[2].narrowed()
                && c.cy == ps[3].narrowed()
            &&& model != 1 && model != 4 ==> c.fy == ps[0].narrowed() && c.cx == ps[1].narrowed()
                && c.cy == ps[2].narrowed()
        },
{
    lemma_camera_parts(data, at, id, model, w, h, ps);
    lemma_camera_fields(data, at, id, model, w, h, ps.len() as int, width, height);
}

#[verifier::rlimit(80)]
#[verifier::spinoff_prover]
proof fn lemma_camera_fields(
    data: Seq<u8>,
    at: int,
    id: u32,
    model: u32,
    w: u64,
    h: u64,
    n: int,
    width: u32,
    height: u32,
)
    requires
        0 <= at,
        at + 24 + 8 * n <= data.len(),
        n == if model == 0 {
            3int
        } else if model == 3 {
            5
        } else if model == 4 {
            8
        } else {
            4
        },
        u32_of_le(data.skip(at)) == id,
        u32_of_le(data.skip(at + 4)) == model,
        u64_of_le(data.skip(at + 8)) == w,
        u64_of_le(data.skip(at + 16)) == h,
        w < 0x1_0000_0000,
        h < 0x1_0000_0000,
    ensures
        camera_at(data, at, width, height) matches Ok((c, next)) && {
            &&& next == at + 24 + 8 * n
            &&& c.id == id
            &&& w > 0 && h > 0 ==> c.width == w && c.height == h
            &&& w == 0 || h == 0 ==> c.width == width && c.height == height
            &&& c.fx == camera_param(data, at, 0)
            &&& model == 1 || model == 4 ==> c.fy == camera_param(data, at, 1) && c.cx
                == camera_param(data, at, 2) && c.cy == camera_param(data, at, 3)
            &&& model != 1 && model != 4 ==> c.fy == camera_param(data, at, 0) && c.cx
                == camera_param(data, at, 1) && c.cy == camera_param(data, at, 2)
        },
{
    let signed = signed_of(model);
    assert(model_params(signed) == n);
    assert(w % 0x1_0000_0000 == w && h % 0x1_0000_0000 == h);
    assert(signed == 1 || signed == 4 <==> model == 1 || model == 4);
    let r = camera_at(data, at, width, height);
    assert(r is Ok);
    let c = r->Ok_0.0;
    if model == 1 || model == 4 {
        assert(c.fy == camera_param(data, at, 1));
    } else {
        assert(c.fy == camera_param(data, at, 0));
    }
}

proof fn lemma_camera_parts(
    data: Seq<u8>,
    at: int,
    id: u32,
    model: u32,
    w: u64,
    h: u64,
    ps: Seq<Double>,
)
    requires
        holds_at(data, at, camera_record(id, model, w, h, ps)),
        ps.len() >= 3,
    ensures
        0 <= at,
        at + 24 + 8 * ps.len() <= data.len(),
        u32_of_le(data.skip(at)) == id,
        u32_of_le(data.skip(at + 4)) == model,
        u64_of_le(data.skip(at + 8)) == w,
        u64_of_le(data.skip(at + 16)) == h,
        camera_param(data, at, 0) == ps[0].narrowed(),
        camera_param(data, at, 1) == ps[1].narrowed(),
        camera_param(data, at, 2) == ps[2].narrowed(),
        ps.len() > 3 ==> camera_param(data, at, 3) == ps[3].narrowed(),
{
    reveal(camera_record);
    lemma_sizes();
    let r3 = eight(h as int) + parameters(ps);
    let r2 = eight(w as int) + r3;
    let r1 = four(model as int) + r2;
    lemma_parameters_len(ps);
    lemma_holds_part(data, at, four(id as int), r1);
    lemma_holds_part(data, at + 4, four(model as int), r2);
    lemma_holds_part(data, at + 8, eight(w as int), r3);
    lemma_holds_part(data, at + 16, eight(h as int), parameters(ps));
    lemma_four(data, at, id as int);
    lemma_four(data, at + 4, model as int);
    lemma_eight(data, at + 8, w as int);
    lemma_eight(data, at + 16, h as int);
    lemma_parameters(data, at + 24, ps, 0);
    lemma_parameters(data, at + 24, ps, 1);
    lemma_parameters(data, at + 24, ps, 2);
    if ps.len() > 3 {
        lemma_parameters(data, at + 24, ps, 3);
    }
}

/// The cameras of a file are read one after the other, as many as it says, and each is kept
/// under its number.
pub proof fn cameras_are_read_in_turn(
    data: Seq<u8>,
    at: int,
    n: nat,
    width: u32,
    height: u32,
    done: Map<u32, CameraRecord>,
)
    requires
        n > 0,
        camera_at(data, at, width, height) is Ok,
    ensures
        ({
            let (c, next) = camera_at(data, at, width, height)->Ok_0;
            cameras_from(data, at, n, width, height, done) == cameras_from(
                data,
                next,
                (n - 1) as nat,
                width,
                height,
                done.insert(c.id, c),
            )
        }),
        cameras_from(data, at, 0, width, height, done) == Ok::<Map<u32, CameraRecord>, SfmFault>(
            done,
        ),
{
}

} // verus!
