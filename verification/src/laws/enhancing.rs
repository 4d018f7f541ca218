//! How a whole signal is enhanced, from its samples to the runs of the model and back.
use vstd::prelude::*;

use crate::complex::Complex;
use crate::fourier;
use crate::fourier::Fourier;
use crate::laws::model_hops;
use crate::laws::numbers::Numbers;
use crate::laws::windows;
use crate::sample;
use crate::sample::Sample;
use crate::state;
use crate::stream;
use crate::stream::{Answer, GtcrnStream, Model, HOP};

verus! {

/// The number at place `i` of a signal, which is silent before its start and after its end.
pub open spec fn signal_at<S: Sample>(n: Numbers<S>, samples: Seq<S>, i: int) -> real {
    if 0 <= i < samples.len() {
        (n.value)(samples[i])
    } else {
        0real
    }
}

/// The model and its caches, before a run and after it.
#[verifier::reject_recursive_types(M)]
#[verifier::reject_recursive_types(C)]
pub struct Session<M, C> {
    /// The model.
    pub model: M,
    /// The convolution cache.
    pub conv: C,
    /// The attention cache.
    pub tra: C,
    /// The recurrent cache.
    pub inter: C,
}

/// Run `k` takes the session from `before` to `after` and gives `frame`. It is handed the spectrum
/// of 512 samples of the signal, up to the end of hop `k`, through the window, with element
/// (0, f, 0, 0) of the tensor as the real part of bin `f` and element (0, f, 0, 1) as its imaginary
/// part; and its answer, read in the same way, is turned back into the frame, divided by 512 and
/// through the window.
pub open spec fn runs_once<S: Sample, M: Model<S>, F: Fourier<S>>(
    n: Numbers<S>,
    fourier: &F,
    window: Seq<S>,
    samples: Seq<S>,
    k: int,
    before: Session<M, M::Cache>,
    after: Session<M, M::Cache>,
    frame: Seq<S>,
) -> bool {
    exists|
        seen: &[S],
        spectrum: Vec<Complex<S>>,
        shape: &[usize],
        mix: &[S],
        answer: Answer<S, M::Cache, M::Error>,
        bins: &[Complex<S>],
        x: Vec<S>,
    |
        {
            &&& #[trigger] call_ensures(F::forward, (fourier, seen), spectrum)
            &&& seen@.len() == 512
            &&& forall|i: int| #![trigger seen@[i]]
                0 <= i < 512 ==> (n.value)(seen@[i]) == signal_at(n, samples, (k - 1) * 256 + i) * (
                n.value)(window[i])
            &&& mix@.len() == 514
            &&& forall|f: int|
                0 <= f < 257 ==> mix@[2 * f] == (#[trigger] spectrum@[f]).re && mix@[2 * f + 1]
                    == spectrum@[f].im
            &&& shape@ == seq![1usize, 257, 1, 2]
            &&& #[trigger] call_ensures(
                M::run,
                (before.model, shape, mix, &before.conv, &before.tra, &before.inter),
                (after.model, Ok(answer)),
            )
            &&& after.conv == answer.conv
            &&& after.tra == answer.tra
            &&& after.inter == answer.inter
            &&& answer.enhanced is Ok
            &&& #[trigger] call_ensures(F::inverse, (fourier, bins), x)
            &&& bins@.len() == 257
            &&& forall|f: int|
                0 <= f < 257 ==> (#[trigger] bins@[f]).re == answer.enhanced->Ok_0@[2 * f]
            &&& forall|f: int|
                0 < f < 256 ==> (#[trigger] bins@[f]).im == answer.enhanced->Ok_0@[2 * f + 1]
            &&& (n.value)(bins@[0].im) == 0real
            &&& (n.value)(bins@[256].im) == 0real
            &&& frame.len() == 512
            &&& forall|i: int| #![trigger frame[i]]
                0 <= i < 512 ==> 512real * (n.value)(frame[i]) == (n.value)(x@[i]) * (n.value)(
                    window[i],
                )
        }
}

/// The sessions follow each other run by run, from caches that remember nothing on, and give the
/// frames; their number is the least that holds the signal, and one more. What comes out at a
/// place is the sum of the two frames that reach there.
pub open spec fn runs_through<S: Sample, M: Model<S>, F: Fourier<S>>(
    n: Numbers<S>,
    fourier: &F,
    window: Seq<S>,
    samples: Seq<S>,
    model: M,
    sessions: Seq<Session<M, M::Cache>>,
    frames: Seq<Seq<S>>,
    out: Seq<S>,
) -> bool {
    &&& sessions.len() == frames.len() + 1
    &&& (frames.len() - 1) * 256 >= samples.len()
    &&& frames.len() == 1 || (frames.len() - 2) * 256 < samples.len()
    &&& sessions[0].model == model
    &&& exists|shape: &[usize]|
        shape@ == seq![2usize, 1, 16, 16, 33] && #[trigger] call_ensures(
            M::zero_cache,
            (&model, shape),
            sessions[0].conv,
        )
    &&& exists|shape: &[usize]|
        shape@ == seq![2usize, 3, 1, 1, 16] && #[trigger] call_ensures(
            M::zero_cache,
            (&model, shape),
            sessions[0].tra,
        )
    &&& exists|shape: &[usize]|
        shape@ == seq![2usize, 1, 33, 16] && #[trigger] call_ensures(
            M::zero_cache,
            (&model, shape),
            sessions[0].inter,
        )
    &&& window.len() == 512
    &&& forall|i: int| #![trigger window[i]]
        0 <= i < 256 ==> {
            &&& (n.value)(window[i]) >= 0real
            &&& 2real * ((n.value)(window[i]) * (n.value)(window[i])) == 1real - (n.cos)(
                2real * n.pi * (i as real) / 512real,
            )
            &&& (n.value)(window[i]) * (n.value)(window[i]) + (n.value)(window[256 + i]) * (
            n.value)(window[256 + i]) == 1real
        }
    &&& forall|k: int| #![trigger frames[k]]
        0 <= k < frames.len() ==> runs_once(
            n,
            fourier,
            window,
            samples,
            k,
            sessions[k],
            sessions[k + 1],
            frames[k],
        )
    &&& out.len() == samples.len()
    &&& forall|i: int| #![trigger out[i]]
        0 <= i < out.len() ==> (n.value)(out[i]) == (n.value)(frames[i / 256 + 1][i % 256]) + (
        n.value)(frames[i / 256][256 + i % 256])
}

spec fn session_of<S: Sample, M: Model<S>>(
    models: Seq<M>,
    streams: Seq<GtcrnStream<S, M::Cache>>,
    k: int,
) -> Session<M, M::Cache> {
    Session {
        model: models[k],
        conv: streams[k].conv_cache,
        tra: streams[k].tra_cache,
        inter: streams[k].inter_cache,
    }
}

/// The frame of hop `k`, which is added to what goes out and to what is kept.
spec fn gives_frame<S: Sample, M: Model<S>, F: Fourier<S>>(
    n: Numbers<S>,
    fourier: &F,
    samples: Seq<S>,
    models: Seq<M>,
    streams: Seq<GtcrnStream<S, M::Cache>>,
    outs: Seq<[S; HOP]>,
    k: int,
    frame: Seq<S>,
) -> bool {
    &&& runs_once(
        n,
        fourier,
        streams[0].stft.window@,
        samples,
        k,
        session_of::<S, M>(models, streams, k),
        session_of::<S, M>(models, streams, k + 1),
        frame,
    )
    &&& stream::halves_overlap(frame, streams[k].ola@, outs[k]@, streams[k + 1].ola@)
}

proof fn lemma_seen<S: Sample>(
    n: Numbers<S>,
    samples: Seq<S>,
    window: Seq<S>,
    k: int,
    ana: Seq<S>,
    seen: Seq<S>,
)
    requires
        n.calculate(),
        stream::latest_are(samples, (k + 1) * 256, ana),
        state::windowed_is(ana, window, seen),
        window.len() == 512,
    ensures
        seen.len() == 512,
        forall|i: int| #![trigger seen[i]]
            0 <= i < 512 ==> (n.value)(seen[i]) == signal_at(n, samples, (k - 1) * 256 + i) * (
            n.value)(window[i]),
{
    assert forall|i: int| #![trigger seen[i]] 0 <= i < 512 implies (n.value)(seen[i]) == signal_at(
        n,
        samples,
        (k - 1) * 256 + i,
    ) * (n.value)(window[i]) by {
        assert(sample::multiplies(ana[i], window[i], seen[i]));
        let at = (k + 1) * 256 - 512 + i;
        assert(at == (k - 1) * 256 + i);
        if 0 <= at < samples.len() {
            assert(ana[i] == samples[at]);
        } else {
            assert(sample::is_zero(ana[i]));
        }
    }
}

#[verifier::rlimit(60)]
#[verifier::spinoff_prover]
proof fn lemma_gives_frame<S: Sample, M: Model<S>, F: Fourier<S>>(
    n: Numbers<S>,
    fourier: &F,
    samples: Seq<S>,
    models: Seq<M>,
    streams: Seq<GtcrnStream<S, M::Cache>>,
    outs: Seq<[S; HOP]>,
    k: int,
)
    requires
        n.calculate(),
        stream::plays(fourier, samples, models, streams, outs),
        0 <= k < outs.len(),
    ensures
        exists|frame: Seq<S>|
            gives_frame(n, fourier, samples, models, streams, outs, k, frame),
{
    let (s, next) = (streams[k], streams[k + 1]);
    let result = Ok::<[S; HOP], M::Error>(outs[k]);
    let window = streams[0].stft.window@;
    stream::latest_samples_are_kept(fourier, samples, models, streams, outs, k);
    stream::latest_samples_are_kept(fourier, samples, models, streams, outs, k + 1);
    assert(stream::plays_hop(fourier, samples, k, models[k], s, models[k + 1], next, result));
    let hop = choose|hop: Seq<S>|
        {
            &&& stream::hop_is(samples, k * HOP, hop)
            &&& #[trigger] s.processes(models[k], fourier, hop, &next, models[k + 1], result)
        };
    let (mix, answer) = choose|
        mix: Seq<S>,
        answer: Result<Answer<S, M::Cache, M::Error>, M::Error>,
    | #[trigger]
        s.runs_hop(models[k], fourier, hop, mix, answer, &next, models[k + 1], result);
    let ana = next.ana_buf@;
    let (shape, v) = choose|shape: &[usize], v: &[S]|
        {
            &&& shape@ == seq![1usize, 257, 1, 2]
            &&& v@ == mix
            &&& #[trigger] call_ensures(
                M::run,
                (models[k], shape, v, &s.conv_cache, &s.tra_cache, &s.inter_cache),
                (models[k + 1], answer),
            )
        };
    let flat = answer->Ok_0.enhanced->Ok_0@;
    let spectrum = choose|spectrum: Seq<Complex<S>>|
        {
            &&& spectrum.len() == stream::N_FREQ
            &&& #[trigger] stream::spectrum_is(fourier, window, ana, spectrum)
            &&& mix.len() == 2 * stream::N_FREQ
            &&& forall|f: int|
                0 <= f < stream::N_FREQ ==> mix[2 * f] == (#[trigger] spectrum[f]).re && mix[2 * f
                    + 1] == spectrum[f].im
        };
    let seen = choose|seen: Seq<S>|
        {
            &&& state::windowed_is(ana, window, seen)
            &&& #[trigger] fourier::forward_is(fourier, seen, spectrum)
        };
    lemma_seen(n, samples, window, k, ana, seen);
    let (fv, there) = choose|v: &[S], there: Vec<Complex<S>>|
        v@ == seen && there@ == spectrum && #[trigger] call_ensures(
            F::forward,
            (fourier, v),
            there,
        );
    let frame = choose|frame: Seq<S>|
        {
            &&& #[trigger] stream::enhanced_frame_is(fourier, window, flat, frame)
            &&& stream::halves_overlap(frame, s.ola@, outs[k]@, next.ola@)
        };
    let bins = choose|bins: Seq<Complex<S>>|
        stream::real_ended_is(flat, bins) && #[trigger] stream::frame_is(
            fourier,
            window,
            bins,
            frame,
        );
    let (back, x) = model_hops::lemma_frame(n, fourier, window, bins, frame);
    let (before, after) = (
        session_of::<S, M>(models, streams, k),
        session_of::<S, M>(models, streams, k + 1),
    );
    let reply = answer->Ok_0;
    assert(call_ensures(F::forward, (fourier, fv), there));
    assert(call_ensures(
        M::run,
        (before.model, shape, v, &before.conv, &before.tra, &before.inter),
        (after.model, Ok(reply)),
    ));
    assert(call_ensures(F::inverse, (fourier, back), x));
    assert(runs_once(n, fourier, window, samples, k, before, after, frame));
    assert(gives_frame(n, fourier, samples, models, streams, outs, k, frame));
}

/// A signal is enhanced run by run: each run gets the spectrum of the last two hops and what the
/// run before it left in the session, and what comes out at a place is the sum of the two frames
/// that reach there, without delay.
pub proof fn signal_is_enhanced_run_by_run<S: Sample, M: Model<S>, F: Fourier<S>>(
    n: Numbers<S>,
    samples: &[S],
    model: M,
    fourier: &F,
    r: Result<Vec<S>, M::Error>,
)
    requires
        n.calculate(),
        n.take_roots(),
        n.compute_functions(),
        n.turn_right(),
        fourier::has_size(fourier, 512),
        stream::answers_in_full::<S, M>(),
        call_ensures(stream::enhance::<S, M, F>, (samples, model, fourier), r),
    ensures
        r matches Ok(v) ==> exists|
            window: Seq<S>,
            sessions: Seq<Session<M, M::Cache>>,
            frames: Seq<Seq<S>>,
        | #[trigger]
            runs_through(n, fourier, window, samples@, model, sessions, frames, v@),
{
    if r is Ok {
        let v = r->Ok_0@;
        let (models, streams, outs) = choose|
            models: Seq<M>,
            streams: Seq<GtcrnStream<S, M::Cache>>,
            outs: Seq<[S; HOP]>,
        |
            {
                &&& #[trigger] stream::plays(fourier, samples@, models, streams, outs)
                &&& models[0] == model
                &&& outs.len() == stream::frame_count(samples@.len() as int)
                &&& v == stream::joined(outs).subrange(HOP as int, HOP + samples@.len())
            };
        lemma_run_by_run(n, fourier, samples@, model, models, streams, outs, v);
    }
}

proof fn lemma_zero_cache<'a, S: Sample, M: Model<S>>(
    model: M,
    shape: Seq<usize>,
    cache: M::Cache,
) -> (v: &'a [usize])
    requires
        stream::zero_cache_is::<S, M>(&model, shape, cache),
    ensures
        v@ == shape,
        call_ensures(M::zero_cache, (&model, v), cache),
{
    choose|v: &[usize]| v@ == shape && #[trigger] call_ensures(M::zero_cache, (&model, v), cache)
}

#[verifier::rlimit(60)]
#[verifier::spinoff_prover]
proof fn lemma_run_by_run<S: Sample, M: Model<S>, F: Fourier<S>>(
    n: Numbers<S>,
    fourier: &F,
    samples: Seq<S>,
    model: M,
    models: Seq<M>,
    streams: Seq<GtcrnStream<S, M::Cache>>,
    outs: Seq<[S; HOP]>,
    v: Seq<S>,
)
    requires
        n.calculate(),
        n.take_roots(),
        n.compute_functions(),
        n.turn_right(),
        stream::plays(fourier, samples, models, streams, outs),
        models[0] == model,
        outs.len() == stream::frame_count(samples.len() as int),
        v == stream::joined(outs).subrange(HOP as int, HOP + samples.len()),
    ensures
        exists|
            window: Seq<S>,
            sessions: Seq<Session<M, M::Cache>>,
            frames: Seq<Seq<S>>,
        | #[trigger]
            runs_through(n, fourier, window, samples, model, sessions, frames, v),
{
    let window = streams[0].stft.window@;
    let sessions = Seq::new(models.len(), |k: int| session_of::<S, M>(models, streams, k));
    let frames = Seq::new(
        outs.len(),
        |k: int|
            choose|frame: Seq<S>|
                gives_frame(n, fourier, samples, models, streams, outs, k, frame),
    );
    assert forall|k: int| #![trigger frames[k]] 0 <= k < frames.len() implies gives_frame(
        n,
        fourier,
        samples,
        models,
        streams,
        outs,
        k,
        frames[k],
    ) by {
        lemma_gives_frame(n, fourier, samples, models, streams, outs, k);
    }
    assert forall|k: int| #![trigger frames[k]] 0 <= k < frames.len() implies runs_once(
        n,
        fourier,
        window,
        samples,
        k,
        sessions[k],
        sessions[k + 1],
        frames[k],
    ) by {
        assert(gives_frame(n, fourier, samples, models, streams, outs, k, frames[k]));
    }
    assert forall|i: int| #![trigger window[i]] 0 <= i < 256 implies {
        &&& (n.value)(window[i]) >= 0real
        &&& 2real * ((n.value)(window[i]) * (n.value)(window[i])) == 1real - (n.cos)(
            2real * n.pi * (i as real) / 512real,
        )
        &&& (n.value)(window[i]) * (n.value)(window[i]) + (n.value)(window[256 + i]) * (n.value)(
            window[256 + i],
        ) == 1real
    } by {
        windows::lemma_sqrt_hann_complete(n, 512, window, i);
    }
    stream::joined_len(outs);
    assert forall|i: int| #![trigger v[i]] 0 <= i < v.len() implies (n.value)(v[i]) == (n.value)(
        frames[i / 256 + 1][i % 256],
    ) + (n.value)(frames[i / 256][256 + i % 256]) by {
        let k = i / 256;
        let j = i % 256;
        assert(i == k * 256 + j);
        assert(0 <= j < 256 && 0 <= k && k + 1 < outs.len());
        model_hops::hops_stand_one_after_the_other(outs, k + 1, j);
        assert(v[i] == stream::joined(outs)[256 + i]);
        assert((k + 1) * 256 + j == 256 + i);
        assert(gives_frame(n, fourier, samples, models, streams, outs, k, frames[k]));
        assert(gives_frame(n, fourier, samples, models, streams, outs, k + 1, frames[k + 1]));
        assert(streams[k + 1].ola@[j] == frames[k][256 + j]);
        assert(sample::adds(frames[k + 1][j], streams[k + 1].ola@[j], outs[k + 1]@[j]));
    }
    assert(stream::joined(outs).len() == outs.len() * 256);
    assert(v.len() == samples.len());
    let first = streams[0];
    assert(sessions[0] == session_of::<S, M>(models, streams, 0));
    let conv = lemma_zero_cache::<S, M>(model, seq![2usize, 1, 16, 16, 33], first.conv_cache);
    assert(call_ensures(M::zero_cache, (&model, conv), sessions[0].conv));
    let tra = lemma_zero_cache::<S, M>(model, seq![2usize, 3, 1, 1, 16], first.tra_cache);
    assert(call_ensures(M::zero_cache, (&model, tra), sessions[0].tra));
    let inter = lemma_zero_cache::<S, M>(model, seq![2usize, 1, 33, 16], first.inter_cache);
    assert(call_ensures(M::zero_cache, (&model, inter), sessions[0].inter));
    assert(runs_through(n, fourier, window, samples, model, sessions, frames, v));
}

} // verus!
