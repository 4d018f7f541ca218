//! In which order a model is loaded.
use vstd::prelude::*;

use crate::load;
use crate::load::{LoadError, Loader, Next, Step};
use crate::sample::Sample;
use crate::stream::GtcrnStream;

verus! {

/// Loading goes on from step to step as long as none fails: from decoding to translating, typing,
/// cleaning up, rewriting, optimizing, making runnable and spawning. Then the session is ready. A
/// step that fails is reported, with what the engine said, and nothing follows it.
pub proof fn each_step_leads_to_the_next(l: &mut Loader, outcome: Result<(), String>, r: Next)
    requires
        old(l).wf(),
        old(l).pending is Some,
        call_ensures(Loader::advance, (l, outcome), r),
    ensures
        final(l).file == old(l).file,
        outcome matches Err(cause) ==> {
            &&& r == Next::Fail(LoadError { step: old(l).pending->0, cause })
            &&& final(l).pending is None
            &&& !final(l).ready
        },
        outcome is Ok ==> {
            &&& old(l).pending->0 == Step::Decode ==> r == Next::Do(Step::Translate)
            &&& old(l).pending->0 == Step::Translate ==> r == Next::Do(Step::Type)
            &&& old(l).pending->0 == Step::Type ==> r == Next::Do(Step::Declutter)
            &&& old(l).pending->0 == Step::Declutter ==> r == Next::Do(Step::Rewrite)
            &&& old(l).pending->0 == Step::Rewrite ==> r == Next::Do(Step::Optimize)
            &&& old(l).pending->0 == Step::Optimize ==> r == Next::Do(Step::MakeRunnable)
            &&& old(l).pending->0 == Step::MakeRunnable ==> r == Next::Do(Step::Spawn)
            &&& old(l).pending->0 == Step::Spawn ==> r == Next::Ready
            &&& final(l).ready <==> r == Next::Ready
            &&& r matches Next::Do(step) ==> final(l).pending == Some(step)
            &&& r == Next::Ready ==> final(l).pending is None
        },
{
}

/// A file that was decoded is translated next; one that was not is reported.
pub proof fn loading_starts_with_the_file(
    decoded: Result<tract_onnx::pb::ModelProto, String>,
    r: Result<Loader, LoadError>,
)
    requires
        call_ensures(Loader::start, (decoded,), r),
    ensures
        decoded matches Ok(file) ==> {
            &&& r is Ok
            &&& r->Ok_0.file == file
            &&& r->Ok_0.pending == Some(Step::Translate)
            &&& !r->Ok_0.ready
        },
        decoded matches Err(cause) ==> {
            &&& r is Err
            &&& r->Err_0.step == Step::Decode
            &&& r->Err_0.cause == cause
        },
{
}

/// The bytes of a file lead to that file, and bytes that are none to the failure of decoding.
pub proof fn bytes_lead_to_their_file<S: Sample, C>(bytes: &[u8], r: Result<Loader, LoadError>)
    requires
        call_ensures(GtcrnStream::<S, C>::from_onnx_bytes, (bytes,), r),
    ensures
        load::onnx_file(bytes@) matches Some(file) ==> {
            &&& r is Ok
            &&& r->Ok_0.file == file
            &&& r->Ok_0.pending == Some(Step::Translate)
            &&& !r->Ok_0.ready
        },
        load::onnx_file(bytes@) is None ==> r is Err && r->Err_0.step == Step::Decode,
{
}

/// A step says which of the eight it is when it fails; decoding and translating say the same.
pub proof fn failures_are_told_apart(step: Step, r: &'static str)
    requires
        call_ensures(Step::failure, (step,), r),
    ensures
        step == Step::Decode ==> r@ == "Failed to parse GTCRN ONNX model"@,
        step == Step::Translate ==> r@ == "Failed to parse GTCRN ONNX model"@,
        step == Step::Type ==> r@ == "Failed to type GTCRN model"@,
        step == Step::Declutter ==> r@ == "Failed to declutter GTCRN model"@,
        step == Step::Rewrite ==> r@ == "Failed to rewrite ScatterNd nodes"@,
        step == Step::Optimize ==> r@ == "Failed to optimize GTCRN model"@,
        step == Step::MakeRunnable ==> r@ == "Failed to make GTCRN model runnable"@,
        step == Step::Spawn ==> r@ == "Failed to spawn GTCRN session state"@,
{
}

} // verus!
