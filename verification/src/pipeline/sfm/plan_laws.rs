//! What the arguments say.

use super::plan::{colmap_steps, frame_args, png_name, step_args, ColmapStep};
use vstd::prelude::*;

verus! {

/// The arguments give the option `name` the value `value`.
pub open spec fn sets(args: Seq<Seq<char>>, name: Seq<char>, value: Seq<char>) -> bool {
    exists|i: int|
        0 <= i < args.len() - 1 && #[trigger] args[i] == name && args[i + 1] == value
}

/// Frames are taken from the video, so many in a second, in the best quality, over frames that
/// are there already, and are named after the pattern.
pub proof fn frames_come_from_the_video(
    video: Seq<char>,
    fps: Seq<char>,
    pattern: Seq<char>,
)
    ensures
        sets(frame_args(video, fps, pattern), "-i"@, video),
        sets(frame_args(video, fps, pattern), "-vf"@, "fps="@ + fps),
        sets(frame_args(video, fps, pattern), "-qscale:v"@, "1"@),
        sets(frame_args(video, fps, pattern), "-f"@, "image2"@),
        sets(frame_args(video, fps, pattern), "image2"@, pattern),
        sets(frame_args(video, fps, pattern), pattern, "-y"@),
        sets(frame_args(video, fps, pattern), "-loglevel"@, "error"@),
        frame_args(video, fps, pattern).len() == 12,
{
    let a = frame_args(video, fps, pattern);
    assert(a[0] == "-i"@ && a[1] == video && a[2] == "-vf"@ && a[3] == "fps="@ + fps);
    assert(a[4] == "-qscale:v"@ && a[5] == "1"@ && a[6] == "-f"@ && a[7] == "image2"@);
    assert(a[8] == pattern && a[9] == "-y"@ && a[10] == "-loglevel"@ && a[11] == "error"@);
}

/// Every step works on the database.  Features are found in the images, as of one camera; the
/// mapping goes from the images to the sparse model.  The card is used, for features and for
/// matching, exactly if it is asked for.
pub proof fn steps_are_told_where_to_look(
    db: Seq<char>,
    images: Seq<char>,
    sparse: Seq<char>,
    use_gpu: bool,
    step: ColmapStep,
)
    ensures
        sets(step_args(step, db, images, sparse, use_gpu), "--database_path"@, db),
        ({
            let a = step_args(ColmapStep::Features, db, images, sparse, use_gpu);
            &&& a[0] == "feature_extractor"@
            &&& sets(a, "--image_path"@, images)
            &&& sets(a, "--ImageReader.single_camera"@, "1"@)
            &&& use_gpu ==> sets(a, "--SiftExtraction.use_gpu"@, "1"@)
            &&& !use_gpu ==> sets(a, "--SiftExtraction.use_gpu"@, "0"@)
            &&& a.len() == 9
        }),
        ({
            let a = step_args(ColmapStep::Matching, db, images, sparse, use_gpu);
            &&& a[0] == "exhaustive_matcher"@
            &&& use_gpu ==> sets(a, "--SiftMatching.use_gpu"@, "1"@)
            &&& !use_gpu ==> sets(a, "--SiftMatching.use_gpu"@, "0"@)
            &&& a.len() == 5
        }),
        ({
            let a = step_args(ColmapStep::Mapping, db, images, sparse, use_gpu);
            &&& a[0] == "mapper"@
            &&& sets(a, "--image_path"@, images)
            &&& sets(a, "--output_path"@, sparse)
            &&& a.len() == 7
        }),
{
    let f = step_args(ColmapStep::Features, db, images, sparse, use_gpu);
    assert(f[1] == "--database_path"@ && f[2] == db && f[3] == "--image_path"@ && f[4] == images);
    assert(f[5] == "--ImageReader.single_camera"@ && f[6] == "1"@);
    assert(f[7] == "--SiftExtraction.use_gpu"@ && f[8] == if use_gpu {
        "1"@
    } else {
        "0"@
    });
    let m = step_args(ColmapStep::Matching, db, images, sparse, use_gpu);
    assert(m[1] == "--database_path"@ && m[2] == db && m[3] == "--SiftMatching.use_gpu"@ && m[4]
        == if use_gpu {
        "1"@
    } else {
        "0"@
    });
    let p = step_args(ColmapStep::Mapping, db, images, sparse, use_gpu);
    assert(p[1] == "--database_path"@ && p[2] == db && p[3] == "--image_path"@ && p[4] == images
        && p[5] == "--output_path"@ && p[6] == sparse);
}

/// Features are found before they are matched, and matched before they are mapped; nothing is
/// done twice.
pub proof fn reconstruction_maps_what_was_matched()
    ensures
        colmap_steps().len() == 3,
        colmap_steps()[0] == ColmapStep::Features,
        colmap_steps()[1] == ColmapStep::Matching,
        colmap_steps()[2] == ColmapStep::Mapping,
{
}

/// A frame is a file whose name is something, and `.png` behind it.
pub proof fn frames_end_in_png(name: Seq<char>, stem: Seq<char>)
    ensures
        stem.len() > 0 ==> png_name(stem + ".png"@),
        png_name(name) ==> exists|s: Seq<char>| s.len() > 0 && name == #[trigger] (s + ".png"@),
{
    reveal_strlit(".png");
    let whole = stem + ".png"@;
    assert(whole.skip(whole.len() - 4) =~= ".png"@);
    if png_name(name) {
        let s = name.take(name.len() - 4);
        assert(name =~= s + ".png"@);
    }
}

} // verus!
