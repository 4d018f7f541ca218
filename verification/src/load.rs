//! Loading a model: from the bytes of an ONNX file to a session that is ready to run.
//!
//! The file is decoded here. What follows is work of the inference engine, one step after the
//! other; a [`Loader`] says which step is next, and is told what came of it.
use tract_onnx::prelude::Framework;
use vstd::prelude::*;

use crate::sample::Sample;
use crate::stream;
use crate::stream::{GtcrnStream, Model};

verus! {

/// A decoded ONNX file. Opaque here: it is handed on to the engine.
#[verifier::external_type_specification]
#[verifier::external_body]
pub struct ExModelProto(tract_onnx::pb::ModelProto);

/// The ONNX file that some bytes encode; nothing where they encode none.
pub uninterp spec fn onnx_file(bytes: Seq<u8>) -> Option<tract_onnx::pb::ModelProto>;

/// `Framework::proto_model_for_read` of `tract_onnx::onnx()`, on a reader over the bytes. Claimed
/// is that whether decoding succeeds, and the file that it gives, depend on the bytes alone. Of
/// the text of a failure nothing is said.
#[verifier::external_body]
fn decode(bytes: &[u8]) -> (r: Result<tract_onnx::pb::ModelProto, String>)
    ensures
        r matches Ok(file) ==> onnx_file(bytes@) == Some(file),
        r is Err ==> onnx_file(bytes@) is None,
{
    let mut reader: &[u8] = bytes;
    tract_onnx::onnx().proto_model_for_read(&mut reader).map_err(|e| e.to_string())
}

/// The steps of loading, in their order.
#[derive(Clone, Copy, Debug, PartialEq, Eq, Structural)]
pub enum Step {
    /// Decode the file.
    Decode,
    /// Translate the file into a model.
    Translate,
    /// Find out the types of the model.
    Type,
    /// Clean the model up.
    Declutter,
    /// Replace the scatter nodes whose indices are constant.
    Rewrite,
    /// Optimize the model.
    Optimize,
    /// Make the model runnable.
    MakeRunnable,
    /// Spawn a session.
    Spawn,
}

/// The step after this one.
pub open spec fn step_after(step: Step) -> Option<Step> {
    match step {
        Step::Decode => Some(Step::Translate),
        Step::Translate => Some(Step::Type),
        Step::Type => Some(Step::Declutter),
        Step::Declutter => Some(Step::Rewrite),
        Step::Rewrite => Some(Step::Optimize),
        Step::Optimize => Some(Step::MakeRunnable),
        Step::MakeRunnable => Some(Step::Spawn),
        Step::Spawn => None,
    }
}

/// What is said when a step fails.
pub open spec fn failure_text(step: Step) -> Seq<char> {
    match step {
        Step::Decode => "Failed to parse GTCRN ONNX model"@,
        Step::Translate => "Failed to parse GTCRN ONNX model"@,
        Step::Type => "Failed to type GTCRN model"@,
        Step::Declutter => "Failed to declutter GTCRN model"@,
        Step::Rewrite => "Failed to rewrite ScatterNd nodes"@,
        Step::Optimize => "Failed to optimize GTCRN model"@,
        Step::MakeRunnable => "Failed to make GTCRN model runnable"@,
        Step::Spawn => "Failed to spawn GTCRN session state"@,
    }
}

impl Step {
    /// The step after this one, if there is one.
    pub fn next(self) -> (r: Option<Step>)
        ensures
            r == step_after(self),
    {
        match self {
            Step::Decode => Some(Step::Translate),
            Step::Translate => Some(Step::Type),
            Step::Type => Some(Step::Declutter),
            Step::Declutter => Some(Step::Rewrite),
            Step::Rewrite => Some(Step::Optimize),
            Step::Optimize => Some(Step::MakeRunnable),
            Step::MakeRunnable => Some(Step::Spawn),
            Step::Spawn => None,
        }
    }

    /// What is said when this step fails.
    pub fn failure(self) -> (r: &'static str)
        ensures
            r@ == failure_text(self),
    {
        match self {
            Step::Decode => "Failed to parse GTCRN ONNX model",
            Step::Translate => "Failed to parse GTCRN ONNX model",
            Step::Type => "Failed to type GTCRN model",
            Step::Declutter => "Failed to declutter GTCRN model",
            Step::Rewrite => "Failed to rewrite ScatterNd nodes",
            Step::Optimize => "Failed to optimize GTCRN model",
            Step::MakeRunnable => "Failed to make GTCRN model runnable",
            Step::Spawn => "Failed to spawn GTCRN session state",
        }
    }
}

/// Why a model could not be loaded.
#[derive(Clone, Debug, PartialEq, Eq)]
pub struct LoadError {
    /// The step that failed.
    pub step: Step,
    /// What the engine said.
    pub cause: String,
}

/// What is to be done next.
pub enum Next {
    /// Take this step.
    Do(Step),
    /// Nothing: the session is ready to run.
    Ready,
    /// Nothing: a step failed.
    Fail(LoadError),
}

/// How far the loading of a file has come.
pub struct Loader {
    /// The file.
    pub file: tract_onnx::pb::ModelProto,
    /// The step that is under way, if loading is not over.
    pub pending: Option<Step>,
    /// Whether the session is ready to run.
    pub ready: bool,
}

impl Loader {
    /// Once the session is ready, no step is under way.
    pub open spec fn wf(&self) -> bool {
        self.ready ==> self.pending is None
    }

    /// The step that is under way came out as given: the next one follows, or the session is
    /// ready. After a failure nothing more is demanded.
    pub open spec fn advances(&self, outcome: Result<(), String>, next: &Self, r: Next) -> bool {
        &&& next.file == self.file
        &&& match outcome {
            Ok(_) => match step_after(self.pending->Some_0) {
                Some(step) => {
                    r == Next::Do(step) && next.pending == Some(step) && !next.ready
                },
                None => r == Next::Ready && next.pending is None && next.ready,
            },
            Err(cause) => {
                &&& r == Next::Fail(LoadError { step: self.pending->Some_0, cause })
                &&& next.pending is None
                &&& !next.ready
            },
        }
    }

    /// Starts loading with what came of decoding the file; translating it is the next step.
    pub fn start(decoded: Result<tract_onnx::pb::ModelProto, String>) -> (r: Result<Loader, LoadError>)
        ensures
            match decoded {
                Ok(file) => r == Ok::<Loader, LoadError>(
                    (Loader { file, pending: Some(Step::Translate), ready: false }),
                ),
                Err(cause) => r == Err::<Loader, LoadError>(
                    (LoadError { step: Step::Decode, cause }),
                ),
            },
    {
        match decoded {
            Ok(file) => Ok(Loader { file, pending: Some(Step::Translate), ready: false }),
            Err(cause) => Err(LoadError { step: Step::Decode, cause }),
        }
    }

    /// Takes in what came of the step under way and says what to do next.
    pub fn advance(&mut self, outcome: Result<(), String>) -> (r: Next)
        requires
            old(self).wf(),
            old(self).pending is Some,
        ensures
            old(self).advances(outcome, final(self), r),
            final(self).wf(),
    {
        match (self.pending, outcome) {
            (Some(step), Ok(_)) => {
                self.pending = step.next();
                match self.pending {
                    Some(next) => Next::Do(next),
                    None => {
                        self.ready = true;
                        Next::Ready
                    },
                }
            },
            (Some(step), Err(cause)) => {
                self.pending = None;
                Next::Fail(LoadError { step, cause })
            },
            (None, _) => Next::Ready,
        }
    }

    /// The stream around the model that was loaded.
    pub fn stream<S: Sample, M: Model<S>>(&self, model: &M) -> (r: GtcrnStream<S, M::Cache>)
        requires
            self.ready,
        ensures
            r.wf(),
            r.is_fresh(model),
            stream::sqrt_hann_window(stream::N_FFT, r.stft.window@),
    {
        GtcrnStream::new(model)
    }
}

impl<S: Sample, C> GtcrnStream<S, C> {
    /// Starts loading a model from the bytes of an ONNX file. Once the steps that the loader
    /// demands have been taken, [`Loader::stream`] gives the stream.
    pub fn from_onnx_bytes(bytes: &[u8]) -> (r: Result<Loader, LoadError>)
        ensures
            match onnx_file(bytes@) {
                Some(file) => r == Ok::<Loader, LoadError>(
                    (Loader { file, pending: Some(Step::Translate), ready: false }),
                ),
                None => r is Err && r->Err_0.step == Step::Decode,
            },
    {
        Loader::start(decode(bytes))
    }
}

// Whole loadings.

/// The loaders follow each other by the outcomes, with the demands `nexts`.
pub open spec fn is_loading(
    loaders: Seq<Loader>,
    outcomes: Seq<Result<(), String>>,
    nexts: Seq<Next>,
) -> bool {
    &&& loaders.len() == outcomes.len() + 1
    &&& nexts.len() == outcomes.len()
    &&& loaders[0].pending == Some(Step::Translate)
    &&& forall|i: int|
        0 <= i < outcomes.len() ==> {
            &&& (#[trigger] loaders[i]).pending is Some
            &&& loaders[i].advances(outcomes[i], &loaders[i + 1], nexts[i])
        }
}

/// The steps that the engine takes, in their order.
pub open spec fn engine_steps() -> Seq<Step> {
    seq![
        Step::Translate,
        Step::Type,
        Step::Declutter,
        Step::Rewrite,
        Step::Optimize,
        Step::MakeRunnable,
        Step::Spawn,
    ]
}

/// The engine's steps are taken in their order, each once, all on the same file; the first failure
/// ends the loading, and without one the session is ready after the last step.
pub proof fn steps_are_taken_in_order(
    loaders: Seq<Loader>,
    outcomes: Seq<Result<(), String>>,
    nexts: Seq<Next>,
    k: int,
)
    requires
        is_loading(loaders, outcomes, nexts),
        0 <= k < outcomes.len(),
    ensures
        k < engine_steps().len(),
        loaders[k].pending == Some(engine_steps()[k]),
        loaders[k].file == loaders[0].file,
        outcomes[k] matches Err(cause) ==> k == outcomes.len() - 1 && nexts[k] == Next::Fail(
            LoadError { step: engine_steps()[k], cause },
        ),
        outcomes[k] is Ok ==> (nexts[k] == Next::Ready <==> k == engine_steps().len() - 1),
    decreases k,
{
    if k > 0 {
        steps_are_taken_in_order(loaders, outcomes, nexts, k - 1);
        assert(loaders[k - 1].advances(outcomes[k - 1], &loaders[k - 1 + 1], nexts[k - 1]));
    }
    assert(loaders[k].advances(outcomes[k], &loaders[k + 1], nexts[k]));
    if k + 1 < outcomes.len() {
        assert(loaders[k + 1].pending is Some);
    }
}

} // verus!
