//! What is asked of ffmpeg and of COLMAP.

use crate::num::text::{chars_of, texts};
use vstd::prelude::*;

verus! {

/// The arguments with which ffmpeg extracts `fps` frames per second from `video` into files
/// named after `pattern`.
pub open spec fn frame_args(video: Seq<char>, fps: Seq<char>, pattern: Seq<char>) -> Seq<Seq<char>> {
    seq![
        "-i"@,
        video,
        "-vf"@,
        "fps="@ + fps,
        "-qscale:v"@,
        "1"@,
        "-f"@,
        "image2"@,
        pattern,
        "-y"@,
        "-loglevel"@,
        "error"@,
    ]
}

/// Appends an argument.
fn push(args: &mut Vec<String>, arg: &str)
    ensures
        texts(final(args)@) == texts(old(args)@).push(arg@),
{
    args.push(arg.to_owned());
    assert(texts(args@) =~= texts(old(args)@).push(arg@));
}

pub fn ffmpeg_args(video: &str, fps: &str, pattern: &str) -> (r: Vec<String>)
    ensures
        texts(r@) == frame_args(video@, fps@, pattern@),
{
    let mut rate = String::new();
    rate.append("fps=");
    rate.append(fps);
    assert(rate@ =~= "fps="@ + fps@);
    let mut args: Vec<String> = Vec::new();
    assert(texts(args@) =~= Seq::<Seq<char>>::empty());
    push(&mut args, "-i");
    push(&mut args, video);
    push(&mut args, "-vf");
    push(&mut args, rate.as_str());
    push(&mut args, "-qscale:v");
    push(&mut args, "1");
    push(&mut args, "-f");
    push(&mut args, "image2");
    push(&mut args, pattern);
    push(&mut args, "-y");
    push(&mut args, "-loglevel");
    push(&mut args, "error");
    assert(texts(args@) =~= frame_args(video@, fps@, pattern@));
    args
}

/// Whether a file name has the extension `png`: it ends in `.png` and is more than that.
pub open spec fn png_name(name: Seq<char>) -> bool {
    name.len() > 4 && name.skip(name.len() - 4) == ".png"@
}

/// Whether a file in the output directory is a frame.
pub fn is_frame(name: &str) -> (r: bool)
    ensures
        r == png_name(name@),
{
    let c = chars_of(name);
    let n = c.len();
    proof {
        reveal_strlit(".png");
        if n > 4 {
            assert(name@.skip(n - 4)[0] == c[n - 4]);
            assert(name@.skip(n - 4)[1] == c[n - 3]);
            assert(name@.skip(n - 4)[2] == c[n - 2]);
            assert(name@.skip(n - 4)[3] == c[n - 1]);
            if c[n - 4] == '.' && c[n - 3] == 'p' && c[n - 2] == 'n' && c[n - 1] == 'g' {
                assert(name@.skip(n - 4) =~= ".png"@);
            }
        }
    }
    n > 4 && c[n - 4] == '.' && c[n - 3] == 'p' && c[n - 2] == 'n' && c[n - 1] == 'g'
}

/// The steps of a reconstruction.
#[derive(Clone, Copy, Debug, PartialEq, Eq, Structural)]
pub enum ColmapStep {
    Features,
    Matching,
    Mapping,
}

/// The steps in the order in which they are run.
pub open spec fn colmap_steps() -> Seq<ColmapStep> {
    seq![ColmapStep::Features, ColmapStep::Matching, ColmapStep::Mapping]
}

pub fn reconstruction() -> (r: Vec<ColmapStep>)
    ensures
        r@ == colmap_steps(),
{
    let mut r: Vec<ColmapStep> = Vec::new();
    r.push(ColmapStep::Features);
    r.push(ColmapStep::Matching);
    r.push(ColmapStep::Mapping);
    assert(r@ =~= colmap_steps());
    r
}

pub open spec fn gpu_flag(use_gpu: bool) -> Seq<char> {
    if use_gpu {
        "1"@
    } else {
        "0"@
    }
}

/// The arguments of a step: one camera for all images, exhaustive matching, and the sparse
/// model of the images in `images` into `sparse`, all over the database `db`.
pub open spec fn step_args(
    step: ColmapStep,
    db: Seq<char>,
    images: Seq<char>,
    sparse: Seq<char>,
    use_gpu: bool,
) -> Seq<Seq<char>> {
    match step {
        ColmapStep::Features => seq![
            "feature_extractor"@,
            "--database_path"@,
            db,
            "--image_path"@,
            images,
            "--ImageReader.single_camera"@,
            "1"@,
            "--SiftExtraction.use_gpu"@,
            gpu_flag(use_gpu),
        ],
        ColmapStep::Matching => seq![
            "exhaustive_matcher"@,
            "--database_path"@,
            db,
            "--SiftMatching.use_gpu"@,
            gpu_flag(use_gpu),
        ],
        ColmapStep::Mapping => seq![
            "mapper"@,
            "--database_path"@,
            db,
            "--image_path"@,
            images,
            "--output_path"@,
            sparse,
        ],
    }
}

pub fn colmap_args(step: ColmapStep, db: &str, images: &str, sparse: &str, use_gpu: bool) -> (r: Vec<
    String,
>)
    ensures
        texts(r@) == step_args(step, db@, images@, sparse@, use_gpu),
{
    let flag: &str = if use_gpu {
        "1"
    } else {
        "0"
    };
    let mut args: Vec<String> = Vec::new();
    assert(texts(args@) =~= Seq::<Seq<char>>::empty());
    match step {
        ColmapStep::Features => {
            push(&mut args, "feature_extractor");
            push(&mut args, "--database_path");
            push(&mut args, db);
            push(&mut args, "--image_path");
            push(&mut args, images);
            push(&mut args, "--ImageReader.single_camera");
            push(&mut args, "1");
            push(&mut args, "--SiftExtraction.use_gpu");
            push(&mut args, flag);
        },
        ColmapStep::Matching => {
            push(&mut args, "exhaustive_matcher");
            push(&mut args, "--database_path");
            push(&mut args, db);
            push(&mut args, "--SiftMatching.use_gpu");
            push(&mut args, flag);
        },
        ColmapStep::Mapping => {
            push(&mut args, "mapper");
            push(&mut args, "--database_path");
            push(&mut args, db);
            push(&mut args, "--image_path");
            push(&mut args, images);
            push(&mut args, "--output_path");
            push(&mut args, sparse);
        },
    }
    assert(texts(args@) =~= step_args(step, db@, images@, sparse@, use_gpu));
    args
}

} // verus!
