//! The stages of a run.
//!
//! A run is driven from outside: it asks what to do first, does it, reports what came of it,
//! and is told what to do next.

use super::optimizer::{default_config, TrainConfig};
use crate::num::single::{Single, ZERO};
use vstd::prelude::*;

verus! {

/// The pattern of `2.0`: frames per second.
pub const EXTRACT_FPS: u32 = 0x4000_0000;

/// How a run is configured; `P` is the type of paths.
#[derive(Clone, Debug)]
pub struct PipelineConfig<P> {
    pub input_video: P,
    pub output_dir: P,
    pub extract_fps: Single,
    pub use_gpu: bool,
    pub train: TrainConfig,
    /// A checkpoint is saved every so many iterations.
    pub save_interval: usize,
    pub bg_color: [Single; 3],
    /// Reuse the reconstruction under `output_dir`.
    pub skip_sfm: bool,
}

impl<P> PipelineConfig<P> {
    /// The defaults for a video: two frames per second, no graphics card, a checkpoint every
    /// 5000 iterations, a black background.
    pub fn from_video(video: P, output: P) -> (r: PipelineConfig<P>)
        ensures
            r.input_video == video,
            r.output_dir == output,
            r.extract_fps == (Single { bits: EXTRACT_FPS }),
            !r.use_gpu,
            r.train == default_config(),
            r.save_interval == 5000,
            forall|i: int| 0 <= i < 3 ==> #[trigger] r.bg_color[i] == (Single { bits: ZERO }),
            !r.skip_sfm,
    {
        let zero = Single { bits: ZERO };
        PipelineConfig {
            input_video: video,
            output_dir: output,
            extract_fps: Single { bits: EXTRACT_FPS },
            use_gpu: false,
            train: TrainConfig::default(),
            save_interval: 5000,
            bg_color: [zero, zero, zero],
            skip_sfm: false,
        }
    }
}

/// What a run has to do next.
#[derive(Clone, Copy, Debug, PartialEq, Eq, Structural)]
pub enum Action {
    /// Extract the frames of the video.
    Extract,
    /// Reconstruct the cameras.
    Reconstruct,
    /// Load the sparse model.
    Load,
    Train,
    /// Save the trained model.
    Save,
    /// Nothing: the run is over.
    Finish,
}

/// What came of an action.
#[derive(Clone, Copy, Debug, PartialEq, Eq, Structural)]
pub enum Outcome {
    /// So many frames were extracted.
    Extracted(usize),
    Reconstructed,
    /// So many cameras were loaded.
    Loaded(usize),
    Trained,
    Saved,
}

/// Why a run is given up.
#[derive(Clone, Copy, Debug, PartialEq, Eq, Structural)]
pub enum RunFault {
    /// The video has no frames.
    NoFrames,
    /// No camera was registered.
    NoCameras,
}

/// What a run starts with.  `frames_given` says that the input is a directory of frames.
pub open spec fn first_action(skip_sfm: bool, frames_given: bool) -> Action {
    if skip_sfm {
        Action::Load
    } else if frames_given {
        Action::Reconstruct
    } else {
        Action::Extract
    }
}

pub fn start(skip_sfm: bool, frames_given: bool) -> (r: Action)
    ensures
        r == first_action(skip_sfm, frames_given),
{
    if skip_sfm {
        Action::Load
    } else if frames_given {
        Action::Reconstruct
    } else {
        Action::Extract
    }
}

/// What follows an outcome.
pub open spec fn next_action(o: Outcome) -> Result<Action, RunFault> {
    match o {
        Outcome::Extracted(n) => if n == 0 {
            Err(RunFault::NoFrames)
        } else {
            Ok(Action::Reconstruct)
        },
        Outcome::Reconstructed => Ok(Action::Load),
        Outcome::Loaded(cameras) => if cameras == 0 {
            Err(RunFault::NoCameras)
        } else {
            Ok(Action::Train)
        },
        Outcome::Trained => Ok(Action::Save),
        Outcome::Saved => Ok(Action::Finish),
    }
}

pub fn proceed(o: Outcome) -> (r: Result<Action, RunFault>)
    ensures
        r == next_action(o),
{
    match o {
        Outcome::Extracted(n) => if n == 0 {
            Err(RunFault::NoFrames)
        } else {
            Ok(Action::Reconstruct)
        },
        Outcome::Reconstructed => Ok(Action::Load),
        Outcome::Loaded(cameras) => if cameras == 0 {
            Err(RunFault::NoCameras)
        } else {
            Ok(Action::Train)
        },
        Outcome::Trained => Ok(Action::Save),
        Outcome::Saved => Ok(Action::Finish),
    }
}

/// `o` reports on the action `a`.
pub open spec fn reports(a: Action, o: Outcome) -> bool {
    match a {
        Action::Extract => o is Extracted,
        Action::Reconstruct => o is Reconstructed,
        Action::Load => o is Loaded,
        Action::Train => o is Trained,
        Action::Save => o is Saved,
        Action::Finish => false,
    }
}

/// How many actions are left, at most.
pub open spec fn left(a: Action) -> nat {
    match a {
        Action::Extract => 5,
        Action::Reconstruct => 4,
        Action::Load => 3,
        Action::Train => 2,
        Action::Save => 1,
        Action::Finish => 0,
    }
}

/// A run goes through its stages in order and comes to an end: extraction, reconstruction,
/// loading, training, saving.
pub proof fn stages_follow_in_order(a: Action, o: Outcome)
    requires
        reports(a, o),
    ensures
        next_action(o) matches Ok(b) ==> left(b) + 1 == left(a),
        next_action(o) is Err <==> o == Outcome::Extracted(0) || o == Outcome::Loaded(0),
{
}

/// Frames are extracted only from a video that is not yet reconstructed.
pub proof fn frames_are_extracted_from_videos(skip_sfm: bool, frames_given: bool)
    ensures
        first_action(skip_sfm, frames_given) == Action::Extract <==> !skip_sfm && !frames_given,
        first_action(skip_sfm, frames_given) == Action::Load <==> skip_sfm,
{
}

/// From a video to the saved model: what comes `k`-th.
pub open spec fn stage(k: int) -> Action {
    if k == 0 {
        Action::Extract
    } else if k == 1 {
        Action::Reconstruct
    } else if k == 2 {
        Action::Load
    } else if k == 3 {
        Action::Train
    } else if k == 4 {
        Action::Save
    } else {
        Action::Finish
    }
}

/// Each stage is followed by the next, unless no frame was extracted or no camera was loaded;
/// each of these has its own fault.  A run starts with the extraction, with the reconstruction of
/// frames that are given, or with loading what was reconstructed before.
pub proof fn runs_go_through_all_stages(k: int, o: Outcome)
    ensures
        0 <= k < 5 && reports(stage(k), o) ==> match o {
            Outcome::Extracted(0) => next_action(o) == Err::<Action, _>(RunFault::NoFrames),
            Outcome::Loaded(0) => next_action(o) == Err::<Action, _>(RunFault::NoCameras),
            _ => next_action(o) == Ok::<_, RunFault>(stage(k + 1)),
        },
        !reports(stage(5), o),
        first_action(false, false) == stage(0),
        first_action(false, true) == stage(1),
        first_action(true, false) == stage(2),
        first_action(true, true) == stage(2),
{
}

/// Where the images are: in the input itself where it is a directory of frames, else where
/// they are extracted to.
pub fn image_dir<P>(frames_given: bool, input: P, extracted: P) -> (r: P)
    ensures
        r == if frames_given {
            input
        } else {
            extracted
        },
{
    if frames_given {
        input
    } else {
        extracted
    }
}

} // verus!
