//! What a model is handed of a signal, and what becomes of its answers.
use vstd::prelude::*;

use crate::complex::Complex;
use crate::fourier;
use crate::fourier::Fourier;
use crate::laws::numbers;
use crate::laws::numbers::Numbers;
use crate::laws::windows;
use crate::sample;
use crate::sample::Sample;
use crate::state;
use crate::stream;
use crate::stream::{Answer, GtcrnStream, Model, Stft, HOP};

verus! {

/// Laid out flat, a spectrum holds the real part of bin `f` at place `2 f` and its imaginary part
/// right behind it.
pub proof fn parts_of_a_bin_stand_side_by_side<S: Sample>(
    spectrum: &[Complex<S>],
    mix: Vec<S>,
    f: int,
)
    requires
        call_ensures(stream::interleave::<S>, (spectrum,), mix),
        0 <= f < spectrum@.len(),
    ensures
        mix@.len() == 2 * spectrum@.len(),
        mix@[2 * f] == spectrum@[f].re,
        mix@[2 * f + 1] == spectrum@[f].im,
{
}

/// What is laid out flat is read back as it was, but for the imaginary parts of the first and the
/// last bin, which become zero.
pub proof fn layout_is_read_back<S: Sample>(
    spectrum: &[Complex<S>],
    mix: Vec<S>,
    flat: &[S],
    r: Vec<Complex<S>>,
    f: int,
)
    requires
        call_ensures(stream::interleave::<S>, (spectrum,), mix),
        spectrum@.len() == 257,
        flat@ == mix@,
        call_ensures(stream::real_ended::<S>, (flat,), r),
        0 <= f < 257,
    ensures
        r@.len() == 257,
        r@[f].re == spectrum@[f].re,
        0 < f < 256 ==> r@[f].im == spectrum@[f].im,
        f == 0 || f == 256 ==> sample::is_zero(r@[f].im),
{
}

/// The transform takes a frame through the window to its spectrum.
pub proof fn spectrum_is_that_of_the_windowed_frame<S: Sample, F: Fourier<S>>(
    n: Numbers<S>,
    stft: &Stft<S>,
    frame: &[S],
    fourier: &F,
    r: Vec<Complex<S>>,
)
    requires
        n.calculate(),
        stft.window@.len() == 512,
        frame@.len() == 512,
        fourier::has_size(fourier, 512),
        call_ensures(Stft::<S>::forward::<F>, (stft, frame, fourier), r),
    ensures
        r@.len() == 257,
        exists|seen: &[S], spectrum: Vec<Complex<S>>|
            {
                &&& #[trigger] call_ensures(F::forward, (fourier, seen), spectrum)
                &&& r@ == spectrum@
                &&& seen@.len() == 512
                &&& forall|i: int| #![trigger seen@[i]]
                    0 <= i < 512 ==> (n.value)(seen@[i]) == (n.value)(frame@[i]) * (n.value)(
                        stft.window@[i],
                    )
            },
{
    let seen = choose|seen: Seq<S>|
        {
            &&& state::windowed_is(frame@, stft.window@, seen)
            &&& #[trigger] fourier::forward_is(fourier, seen, r@)
        };
    let (v, there) = choose|v: &[S], there: Vec<Complex<S>>|
        v@ == seen && there@ == r@ && #[trigger] call_ensures(F::forward, (fourier, v), there);
    assert(call_ensures(F::forward, (fourier, v), there));
    assert forall|i: int| #![trigger v@[i]] 0 <= i < 512 implies (n.value)(v@[i]) == (n.value)(
        frame@[i],
    ) * (n.value)(stft.window@[i]) by {
        assert(sample::multiplies(frame@[i], stft.window@[i], seen[i]));
    }
}

/// Back from a spectrum, 512 times a frame is what the spectrum is turned into, through the window.
pub proof fn frame_is_turned_back_through_the_window<S: Sample, F: Fourier<S>>(
    n: Numbers<S>,
    stft: &Stft<S>,
    spectrum: &[Complex<S>],
    fourier: &F,
    r: Vec<S>,
)
    requires
        n.calculate(),
        stft.window@.len() == 512,
        spectrum@.len() == 257,
        fourier::has_size(fourier, 512),
        call_ensures(Stft::<S>::inverse::<F>, (stft, spectrum, fourier), r),
    ensures
        r@.len() == 512,
        exists|bins: &[Complex<S>], x: Vec<S>|
            {
                &&& #[trigger] call_ensures(F::inverse, (fourier, bins), x)
                &&& bins@ == spectrum@
                &&& forall|i: int| #![trigger r@[i]]
                    0 <= i < 512 ==> 512real * (n.value)(r@[i]) == (n.value)(x@[i]) * (n.value)(
                        stft.window@[i],
                    )
            },
{
    let (v, x) = lemma_frame(n, fourier, stft.window@, spectrum@, r@);
    assert(call_ensures(F::inverse, (fourier, v), x));
}

/// Sample `i` of the frame that ends with the hop `input`, where `ana` came in before.
pub open spec fn latest<S>(ana: Seq<S>, input: Seq<S>, i: int) -> S {
    if i < 256 {
        ana[i + 256]
    } else {
        input[i - 256]
    }
}

/// A hop is one run of the model. The run is handed the spectrum of the last two hops, seen through
/// the window, as a tensor of the shape 1, 257, 1, 2: element (0, f, 0, 0) is the real part of
/// bin `f`, and element (0, f, 0, 1) its imaginary part. The answer is read in the same way: it is
/// turned back from the spectrum whose bin `f` has as its parts element (0, f, 0, 0) and, but for
/// the first and the last bin, element (0, f, 0, 1). What comes of that, divided by the window's
/// length and seen through the window, goes out in its first half and is kept in its second.
#[verifier::rlimit(60)]
pub proof fn hop_is_one_run<S: Sample, M: Model<S>, F: Fourier<S>>(
    n: Numbers<S>,
    s: &mut GtcrnStream<S, M::Cache>,
    input: &[S],
    model: M,
    fourier: &F,
    r: (M, Result<[S; HOP], M::Error>),
)
    requires
        n.calculate(),
        old(s).stft.window@.len() == 512,
        input@.len() == 256,
        fourier::has_size(fourier, 512),
        stream::answers_in_full::<S, M>(),
        call_ensures(
            GtcrnStream::<S, M::Cache>::process_frame::<M, F>,
            (s, input, model, fourier),
            r,
        ),
    ensures
        forall|i: int| #![trigger final(s).ana_buf@[i]]
            0 <= i < 512 ==> final(s).ana_buf@[i] == latest(old(s).ana_buf@, input@, i),
        final(s).stft.window@ == old(s).stft.window@,
        exists|
            frame: &[S],
            spectrum: Vec<Complex<S>>,
            shape: &[usize],
            mix: &[S],
            answer: Result<Answer<S, M::Cache, M::Error>, M::Error>,
        |
            {
                &&& #[trigger] call_ensures(F::forward, (fourier, frame), spectrum)
                &&& frame@.len() == 512
                &&& forall|i: int| #![trigger frame@[i]]
                    0 <= i < 512 ==> (n.value)(frame@[i]) == (n.value)(
                        latest(old(s).ana_buf@, input@, i),
                    ) * (n.value)(old(s).stft.window@[i])
                &&& shape@ == seq![1usize, 257, 1, 2]
                &&& mix@.len() == 514
                &&& forall|f: int|
                    0 <= f < 257 ==> mix@[2 * f] == (#[trigger] spectrum@[f]).re && mix@[2 * f + 1]
                        == spectrum@[f].im
                &&& #[trigger] call_ensures(
                    M::run,
                    (
                        model,
                        shape,
                        mix,
                        &old(s).conv_cache,
                        &old(s).tra_cache,
                        &old(s).inter_cache,
                    ),
                    (r.0, answer),
                )
                &&& answer matches Err(e) ==> {
                    &&& r.1 == Err::<[S; HOP], M::Error>(e)
                    &&& final(s).ola@ == old(s).ola@
                    &&& final(s).conv_cache == old(s).conv_cache
                    &&& final(s).tra_cache == old(s).tra_cache
                    &&& final(s).inter_cache == old(s).inter_cache
                }
                &&& answer matches Ok(a) ==> {
                    &&& final(s).conv_cache == a.conv
                    &&& final(s).tra_cache == a.tra
                    &&& final(s).inter_cache == a.inter
                    &&& a.enhanced matches Err(e) ==> {
                        &&& r.1 == Err::<[S; HOP], M::Error>(e)
                        &&& final(s).ola@ == old(s).ola@
                    }
                    &&& a.enhanced matches Ok(flat) ==> r.1 is Ok && exists|
                        bins: &[Complex<S>],
                        x: Vec<S>,
                    |
                        {
                            &&& #[trigger] call_ensures(F::inverse, (fourier, bins), x)
                            &&& bins@.len() == 257
                            &&& forall|f: int|
                                0 <= f < 257 ==> (#[trigger] bins@[f]).re == flat@[2 * f]
                            &&& forall|f: int|
                                0 < f < 256 ==> (#[trigger] bins@[f]).im == flat@[2 * f + 1]
                            &&& (n.value)(bins@[0].im) == 0real
                            &&& (n.value)(bins@[256].im) == 0real
                            &&& forall|i: int| #![trigger r.1->Ok_0@[i]]
                                0 <= i < 256 ==> 512real * (n.value)(r.1->Ok_0@[i]) == (n.value)(
                                    x@[i],
                                ) * (n.value)(old(s).stft.window@[i]) + 512real * (n.value)(
                                    old(s).ola@[i],
                                )
                            &&& forall|i: int| #![trigger final(s).ola@[i]]
                                0 <= i < 256 ==> 512real * (n.value)(final(s).ola@[i]) == (
                                n.value)(x@[256 + i]) * (n.value)(old(s).stft.window@[256 + i])
                        }
                }
            },
{
    let window = old(s).stft.window@;
    let ana = old(s).ana_buf@.skip(256) + input@;
    let (spectrum, shape, mix, answer) = choose|
        spectrum: Seq<Complex<S>>,
        shape: &[usize],
        mix: &[S],
        answer: Result<Answer<S, M::Cache, M::Error>, M::Error>,
    |
        {
            &&& spectrum.len() == 257
            &&& #[trigger] stream::spectrum_is(fourier, window, ana, spectrum)
            &&& mix@.len() == 514
            &&& forall|f: int|
                0 <= f < 257 ==> mix@[2 * f] == (#[trigger] spectrum[f]).re && mix@[2 * f + 1]
                    == spectrum[f].im
            &&& shape@ == seq![1usize, 257, 1, 2]
            &&& #[trigger] call_ensures(
                M::run,
                (
                    model,
                    shape,
                    mix,
                    &old(s).conv_cache,
                    &old(s).tra_cache,
                    &old(s).inter_cache,
                ),
                (r.0, answer),
            )
            &&& match answer {
                Err(e) => {
                    &&& r.1 == Err::<[S; HOP], M::Error>(e)
                    &&& final(s).ola@ == old(s).ola@
                    &&& final(s).conv_cache == old(s).conv_cache
                    &&& final(s).tra_cache == old(s).tra_cache
                    &&& final(s).inter_cache == old(s).inter_cache
                },
                Ok(a) => {
                    &&& final(s).conv_cache == a.conv
                    &&& final(s).tra_cache == a.tra
                    &&& final(s).inter_cache == a.inter
                    &&& match a.enhanced {
                        Err(e) => {
                            &&& r.1 == Err::<[S; HOP], M::Error>(e)
                            &&& final(s).ola@ == old(s).ola@
                        },
                        Ok(flat) => r.1 is Ok && exists|bins: Seq<Complex<S>>, frame: Seq<S>|
                            {
                                &&& bins.len() == 257
                                &&& forall|f: int|
                                    0 <= f < 257 ==> (#[trigger] bins[f]).re == flat@[2 * f]
                                &&& forall|f: int|
                                    0 < f < 256 ==> (#[trigger] bins[f]).im == flat@[2 * f + 1]
                                &&& sample::is_zero(bins[0].im)
                                &&& sample::is_zero(bins[256].im)
                                &&& #[trigger] stream::frame_is(fourier, window, bins, frame)
                                &&& forall|i: int|
                                    0 <= i < 256 ==> sample::adds(
                                        frame[i],
                                        old(s).ola@[i],
                                        #[trigger] r.1->Ok_0@[i],
                                    )
                                &&& forall|i: int|
                                    0 <= i < 256 ==> #[trigger] final(s).ola@[i] == frame[256 + i]
                            },
                    }
                },
            }
        };
    let seen = choose|seen: Seq<S>|
        {
            &&& state::windowed_is(ana, window, seen)
            &&& #[trigger] fourier::forward_is(fourier, seen, spectrum)
        };
    let (frame, there) = choose|v: &[S], there: Vec<Complex<S>>|
        v@ == seen && there@ == spectrum && #[trigger] call_ensures(
            F::forward,
            (fourier, v),
            there,
        );
    assert(call_ensures(F::forward, (fourier, frame), there));
    assert forall|i: int| #![trigger frame@[i]] 0 <= i < 512 implies (n.value)(frame@[i]) == (
    n.value)(latest(old(s).ana_buf@, input@, i)) * (n.value)(window[i]) by {
        assert(sample::multiplies(ana[i], window[i], seen[i]));
    }
    if answer is Ok && answer->Ok_0.enhanced is Ok {
        let flat = answer->Ok_0.enhanced->Ok_0;
        let (bins, back) = choose|bins: Seq<Complex<S>>, frame: Seq<S>|
            {
                &&& bins.len() == 257
                &&& forall|f: int| 0 <= f < 257 ==> (#[trigger] bins[f]).re == flat@[2 * f]
                &&& forall|f: int| 0 < f < 256 ==> (#[trigger] bins[f]).im == flat@[2 * f + 1]
                &&& sample::is_zero(bins[0].im)
                &&& sample::is_zero(bins[256].im)
                &&& #[trigger] stream::frame_is(fourier, window, bins, frame)
                &&& forall|i: int|
                    0 <= i < 256 ==> sample::adds(
                        frame[i],
                        old(s).ola@[i],
                        #[trigger] r.1->Ok_0@[i],
                    )
                &&& forall|i: int| 0 <= i < 256 ==> #[trigger] final(s).ola@[i] == frame[256 + i]
            };
        let (v, x) = lemma_frame(n, fourier, window, bins, back);
        assert(call_ensures(F::inverse, (fourier, v), x));
    }
}

/// What a spectrum is turned back into, with its values.
pub proof fn lemma_frame<'a, S: Sample, F: Fourier<S>>(
    n: Numbers<S>,
    fourier: &F,
    window: Seq<S>,
    bins: Seq<Complex<S>>,
    frame: Seq<S>,
) -> (p: (&'a [Complex<S>], Vec<S>))
    requires
        n.calculate(),
        stream::frame_is(fourier, window, bins, frame),
    ensures
        call_ensures(F::inverse, (fourier, p.0), p.1),
        p.0@ == bins,
        frame.len() == 512,
        forall|i: int| #![trigger frame[i]]
            0 <= i < 512 ==> 512real * (n.value)(frame[i]) == (n.value)(p.1@[i]) * (n.value)(
                window[i],
            ),
{
    let (x, count) = choose|x: Seq<S>, count: S|
        {
            &&& #[trigger] fourier::inverse_is(fourier, bins, x)
            &&& #[trigger] sample::is_count(stream::N_FFT, count)
            &&& frame.len() == stream::N_FFT
            &&& forall|i: int|
                0 <= i < stream::N_FFT ==> stream::normalized_is(
                    x[i],
                    count,
                    window[i],
                    #[trigger] frame[i],
                )
        };
    let (v, y) = choose|v: &[Complex<S>], r: Vec<S>|
        v@ == bins && r@ == x && #[trigger] call_ensures(F::inverse, (fourier, v), r);
    assert forall|i: int| #![trigger frame[i]] 0 <= i < 512 implies 512real * (n.value)(frame[i])
        == (n.value)(y@[i]) * (n.value)(window[i]) by {
        assert(stream::normalized_is(x[i], count, window[i], frame[i]));
        let q = choose|q: S|
            #[trigger] sample::divides(x[i], count, q) && sample::multiplies(
                q,
                window[i],
                frame[i],
            );
        let vq = (n.value)(q);
        let w = (n.value)(window[i]);
        let vx = (n.value)(x[i]);
        let vf = (n.value)(frame[i]);
        assert(512real * vf == vx * w) by (nonlinear_arith)
            requires
                vq * 512real == vx,
                vf == vq * w,
        ;
    }
    (v, y)
}

/// What a model is handed has four axes, and its caches five, five and four.
pub proof fn shapes_are_those_of_the_model(
    mix: [usize; 4],
    conv: [usize; 5],
    tra: [usize; 5],
    inter: [usize; 4],
)
    requires
        call_ensures(stream::mix_shape, (), mix),
        call_ensures(stream::conv_cache_shape, (), conv),
        call_ensures(stream::tra_cache_shape, (), tra),
        call_ensures(stream::inter_cache_shape, (), inter),
    ensures
        mix@ == seq![1usize, 257, 1, 2],
        conv@ == seq![2usize, 1, 16, 16, 33],
        tra@ == seq![2usize, 3, 1, 1, 16],
        inter@ == seq![2usize, 1, 33, 16],
{
}

/// The tensor that a model is handed holds the spectrum of the last 512 samples through the window,
/// real and imaginary part of each bin side by side.
pub proof fn tensor_holds_the_spectrum<S: Sample, C, F: Fourier<S>>(
    n: Numbers<S>,
    s: &GtcrnStream<S, C>,
    fourier: &F,
    mix: Vec<S>,
)
    requires
        n.calculate(),
        s.stft.window@.len() == 512,
        fourier::has_size(fourier, 512),
        call_ensures(GtcrnStream::<S, C>::mix::<F>, (s, fourier), mix),
    ensures
        mix@.len() == 514,
        exists|seen: &[S], spectrum: Vec<Complex<S>>|
            {
                &&& #[trigger] call_ensures(F::forward, (fourier, seen), spectrum)
                &&& seen@.len() == 512
                &&& forall|i: int| #![trigger seen@[i]]
                    0 <= i < 512 ==> (n.value)(seen@[i]) == (n.value)(s.ana_buf@[i]) * (n.value)(
                        s.stft.window@[i],
                    )
                &&& spectrum@.len() == 257
                &&& forall|f: int|
                    0 <= f < 257 ==> mix@[2 * f] == (#[trigger] spectrum@[f]).re && mix@[2 * f + 1]
                        == spectrum@[f].im
            },
{
    let window = s.stft.window@;
    let ana = s.ana_buf@;
    let spectrum = choose|spectrum: Seq<Complex<S>>|
        {
            &&& spectrum.len() == 257
            &&& #[trigger] stream::spectrum_is(fourier, window, ana, spectrum)
            &&& forall|f: int|
                0 <= f < 257 ==> mix@[2 * f] == (#[trigger] spectrum[f]).re && mix@[2 * f + 1]
                    == spectrum[f].im
        };
    let seen = choose|seen: Seq<S>|
        {
            &&& state::windowed_is(ana, window, seen)
            &&& #[trigger] fourier::forward_is(fourier, seen, spectrum)
        };
    let (v, there) = choose|v: &[S], there: Vec<Complex<S>>|
        v@ == seen && there@ == spectrum && #[trigger] call_ensures(
            F::forward,
            (fourier, v),
            there,
        );
    assert(call_ensures(F::forward, (fourier, v), there));
    assert forall|i: int| #![trigger v@[i]] 0 <= i < 512 implies (n.value)(v@[i]) == (n.value)(
        ana[i],
    ) * (n.value)(window[i]) by {
        assert(sample::multiplies(ana[i], window[i], seen[i]));
    }
}

/// An answer's caches are kept whatever becomes of its spectrum. A spectrum that can be read is
/// turned back; the first half of that, divided by 512 and through the window, goes out on top of
/// what was kept, and the second half is kept. One that cannot be read is reported, and what was
/// kept stays.
#[verifier::rlimit(60)]
pub proof fn answers_are_settled<S: Sample, C, E, F: Fourier<S>>(
    n: Numbers<S>,
    s: &mut GtcrnStream<S, C>,
    answer: Answer<S, C, E>,
    fourier: &F,
    r: Result<[S; HOP], E>,
)
    requires
        n.calculate(),
        old(s).stft.window@.len() == 512,
        answer.enhanced matches Ok(flat) ==> flat@.len() >= 514,
        fourier::has_size(fourier, 512),
        call_ensures(GtcrnStream::<S, C>::settle::<E, F>, (s, answer, fourier), r),
    ensures
        final(s).ana_buf@ == old(s).ana_buf@,
        final(s).stft == old(s).stft,
        final(s).conv_cache == answer.conv,
        final(s).tra_cache == answer.tra,
        final(s).inter_cache == answer.inter,
        answer.enhanced matches Err(e) ==> r == Err::<[S; HOP], E>(e),
        answer.enhanced is Err ==> final(s).ola@ == old(s).ola@,
        answer.enhanced matches Ok(flat) ==> r is Ok && exists|bins: &[Complex<S>], x: Vec<S>|
            {
                &&& #[trigger] call_ensures(F::inverse, (fourier, bins), x)
                &&& bins@.len() == 257
                &&& forall|f: int| 0 <= f < 257 ==> (#[trigger] bins@[f]).re == flat@[2 * f]
                &&& forall|f: int| 0 < f < 256 ==> (#[trigger] bins@[f]).im == flat@[2 * f + 1]
                &&& (n.value)(bins@[0].im) == 0real
                &&& (n.value)(bins@[256].im) == 0real
                &&& forall|i: int| #![trigger r->Ok_0@[i]]
                    0 <= i < 256 ==> 512real * (n.value)(r->Ok_0@[i]) == (n.value)(x@[i]) * (
                    n.value)(old(s).stft.window@[i]) + 512real * (n.value)(old(s).ola@[i])
                &&& forall|i: int| #![trigger final(s).ola@[i]]
                    0 <= i < 256 ==> 512real * (n.value)(final(s).ola@[i]) == (n.value)(
                        x@[256 + i],
                    ) * (n.value)(old(s).stft.window@[256 + i])
            },
{
    if answer.enhanced is Ok {
        let flat = answer.enhanced->Ok_0;
        let window = old(s).stft.window@;
        let (bins, back) = choose|bins: Seq<Complex<S>>, frame: Seq<S>|
            {
                &&& bins.len() == 257
                &&& forall|f: int| 0 <= f < 257 ==> (#[trigger] bins[f]).re == flat@[2 * f]
                &&& forall|f: int| 0 < f < 256 ==> (#[trigger] bins[f]).im == flat@[2 * f + 1]
                &&& sample::is_zero(bins[0].im)
                &&& sample::is_zero(bins[256].im)
                &&& #[trigger] stream::frame_is(fourier, window, bins, frame)
                &&& r is Ok
                &&& forall|i: int|
                    0 <= i < 256 ==> sample::adds(frame[i], old(s).ola@[i], #[trigger] r->Ok_0@[i])
                &&& forall|i: int| 0 <= i < 256 ==> #[trigger] final(s).ola@[i] == frame[256 + i]
            };
        let (v, x) = lemma_frame(n, fourier, window, bins, back);
        assert(call_ensures(F::inverse, (fourier, v), x));
    }
}

/// A hop that comes in pushes the older half of the signal out.
pub proof fn older_half_makes_room<S: Sample, C>(
    s: &mut GtcrnStream<S, C>,
    input: &[S],
    i: int,
)
    requires
        input@.len() == 256,
        call_ensures(GtcrnStream::<S, C>::hear, (s, input), ()),
        0 <= i < 512,
    ensures
        final(s).ana_buf@[i] == latest(old(s).ana_buf@, input@, i),
        final(s).ola@ == old(s).ola@,
        final(s).stft == old(s).stft,
        final(s).conv_cache == old(s).conv_cache,
        final(s).tra_cache == old(s).tra_cache,
        final(s).inter_cache == old(s).inter_cache,
{
}

/// A hop of a signal is what the signal holds from a place on, and silence where it has ended.
pub proof fn hops_are_filled_up_with_silence<S: Sample>(
    n: Numbers<S>,
    samples: &[S],
    pos: usize,
    hop: [S; HOP],
    i: int,
)
    requires
        n.calculate(),
        call_ensures(stream::next_hop::<S>, (samples, pos), hop),
        0 <= i < 256,
    ensures
        pos + i < samples@.len() ==> hop@[i] == samples@[pos + i],
        pos + i >= samples@.len() ==> (n.value)(hop@[i]) == 0real,
{
}

/// Without its delay a signal starts a hop later, and ends where it is told to.
pub proof fn delay_is_one_hop<S: Sample>(n: Numbers<S>, out: &[S], len: usize, r: Vec<S>, i: int)
    requires
        n.calculate(),
        call_ensures(stream::without_delay::<S>, (out, len), r),
        0 <= i < len,
    ensures
        r@.len() == len,
        256 + i < out@.len() ==> r@[i] == out@[256 + i],
        256 + i >= out@.len() ==> (n.value)(r@[i]) == 0real,
{
}

/// A new stream has silence behind it, caches of the model's three shapes that remember nothing,
/// and as its window the root of a raised cosine, whose places half a window apart complete each
/// other.
pub proof fn new_stream_has_heard_nothing<S: Sample, M: Model<S>>(
    n: Numbers<S>,
    model: &M,
    r: GtcrnStream<S, M::Cache>,
    i: int,
)
    requires
        n.calculate(),
        n.take_roots(),
        n.compute_functions(),
        n.turn_right(),
        call_ensures(GtcrnStream::<S, M::Cache>::new::<M>, (model,), r),
        0 <= i < 256,
    ensures
        r.stft.window@.len() == 512,
        (n.value)(r.stft.window@[i]) >= 0real,
        2real * ((n.value)(r.stft.window@[i]) * (n.value)(r.stft.window@[i])) == 1real - (n.cos)(
            2real * n.pi * (i as real) / 512real,
        ),
        (n.value)(r.stft.window@[i]) * (n.value)(r.stft.window@[i]) + (n.value)(
            r.stft.window@[256 + i],
        ) * (n.value)(r.stft.window@[256 + i]) == 1real,
        (n.value)(r.ana_buf@[i]) == 0real,
        (n.value)(r.ana_buf@[256 + i]) == 0real,
        (n.value)(r.ola@[i]) == 0real,
        exists|shape: &[usize]|
            shape@ == seq![2usize, 1, 16, 16, 33] && #[trigger] call_ensures(
                M::zero_cache,
                (model, shape),
                r.conv_cache,
            ),
        exists|shape: &[usize]|
            shape@ == seq![2usize, 3, 1, 1, 16] && #[trigger] call_ensures(
                M::zero_cache,
                (model, shape),
                r.tra_cache,
            ),
        exists|shape: &[usize]|
            shape@ == seq![2usize, 1, 33, 16] && #[trigger] call_ensures(
                M::zero_cache,
                (model, shape),
                r.inter_cache,
            ),
{
    windows::lemma_sqrt_hann_complete(n, 512, r.stft.window@, i);
    assert(sample::is_zero(r.ana_buf@[i]));
    assert(sample::is_zero(r.ana_buf@[256 + i]));
    assert(sample::is_zero(r.ola@[i]));
}

/// A stream that is reset has forgotten all that it heard, and keeps its window.
pub proof fn reset_stream_has_heard_nothing<S: Sample, M: Model<S>>(
    n: Numbers<S>,
    s: &mut GtcrnStream<S, M::Cache>,
    model: &M,
    i: int,
)
    requires
        n.calculate(),
        call_ensures(GtcrnStream::<S, M::Cache>::reset::<M>, (s, model), ()),
        0 <= i < 256,
    ensures
        final(s).stft == old(s).stft,
        (n.value)(final(s).ana_buf@[i]) == 0real,
        (n.value)(final(s).ana_buf@[256 + i]) == 0real,
        (n.value)(final(s).ola@[i]) == 0real,
        exists|shape: &[usize]|
            shape@ == seq![2usize, 1, 16, 16, 33] && #[trigger] call_ensures(
                M::zero_cache,
                (model, shape),
                final(s).conv_cache,
            ),
        exists|shape: &[usize]|
            shape@ == seq![2usize, 3, 1, 1, 16] && #[trigger] call_ensures(
                M::zero_cache,
                (model, shape),
                final(s).tra_cache,
            ),
        exists|shape: &[usize]|
            shape@ == seq![2usize, 1, 33, 16] && #[trigger] call_ensures(
                M::zero_cache,
                (model, shape),
                final(s).inter_cache,
            ),
{
    assert(sample::is_zero(final(s).ana_buf@[i]));
    assert(sample::is_zero(final(s).ana_buf@[256 + i]));
    assert(sample::is_zero(final(s).ola@[i]));
}

/// An enhanced signal is as long as the signal, and only the model can fail.
pub proof fn enhanced_signal_is_as_long<S: Sample, M: Model<S>, F: Fourier<S>>(
    samples: &[S],
    model: M,
    fourier: &F,
    r: Result<Vec<S>, M::Error>,
)
    requires
        fourier::has_size(fourier, 512),
        stream::answers_in_full::<S, M>(),
        call_ensures(stream::enhance::<S, M, F>, (samples, model, fourier), r),
    ensures
        r matches Ok(v) ==> v@.len() == samples@.len(),
        r matches Err(e) ==> stream::model_fails_with::<S, M>(e),
{
    if r is Err {
        stream::only_the_model_fails(model, fourier, samples@, r->Err_0);
    }
}

// Through and back.

/// The transform restores frames: where the spectrum of a frame of 512 samples is turned back,
/// whatever the imaginary parts of its first and last bin, every sample comes back times 512.
pub open spec fn restores<S: Sample, F: Fourier<S>>(n: Numbers<S>, fourier: &F) -> bool {
    forall|v: &[S], there: Vec<Complex<S>>, back: &[Complex<S>], r: Vec<S>|
        v@.len() == 512 && #[trigger] call_ensures(F::forward, (fourier, v), there)
            && #[trigger] call_ensures(F::inverse, (fourier, back), r)
            && fourier::agree_but_for_imaginary_ends(there@, back@) ==> r@.len() == 512 && forall|
            i: int,
        |
            0 <= i < 512 ==> (n.value)(#[trigger] r@[i]) == 512real * (n.value)(v@[i])
}

/// The model answers every spectrum with that spectrum.
pub open spec fn echoes<S: Sample, M: Model<S>>() -> bool {
    forall|
        model: M,
        shape: &[usize],
        v: &[S],
        conv: M::Cache,
        tra: M::Cache,
        inter: M::Cache,
        after: M,
        answer: Result<Answer<S, M::Cache, M::Error>, M::Error>,
    |
        #[trigger] call_ensures(
            M::run,
            (model, shape, v, &conv, &tra, &inter),
            (after, answer),
        ) ==> answer is Ok && answer->Ok_0.enhanced is Ok && answer->Ok_0.enhanced->Ok_0@ == v@
}

proof fn lemma_read_back<S: Sample>(
    spectrum: Seq<Complex<S>>,
    mix: Seq<S>,
    bins: Seq<Complex<S>>,
)
    requires
        spectrum.len() == 257,
        forall|f: int|
            0 <= f < 257 ==> mix[2 * f] == (#[trigger] spectrum[f]).re && mix[2 * f + 1]
                == spectrum[f].im,
        stream::real_ended_is(mix, bins),
    ensures
        fourier::agree_but_for_imaginary_ends(spectrum, bins),
{
}

/// What comes back of a sample that is seen through the window twice.
proof fn lemma_seen_twice(a: real, w: real, seen: real, x: real, f: real)
    requires
        seen == a * w,
        x == 512real * seen,
        512real * f == x * w,
    ensures
        f == a * (w * w),
{
    assert(f == a * (w * w)) by (nonlinear_arith)
        requires
            512real * f == x * w,
            x == 512real * (a * w),
    ;
}

/// What comes back of a frame whose spectrum is handed back as it is.
#[verifier::rlimit(60)]
proof fn lemma_echoed_frame<S: Sample, F: Fourier<S>>(
    n: Numbers<S>,
    fourier: &F,
    window: Seq<S>,
    ana: Seq<S>,
    mix: Seq<S>,
    frame: Seq<S>,
)
    requires
        n.calculate(),
        restores(n, fourier),
        window.len() == 512,
        ana.len() == 512,
        stream::mix_is(fourier, window, ana, mix),
        stream::enhanced_frame_is(fourier, window, mix, frame),
    ensures
        frame.len() == 512,
        forall|i: int| #![trigger frame[i]]
            0 <= i < 512 ==> (n.value)(frame[i]) == (n.value)(ana[i]) * numbers::square(
                (n.value)(window[i]),
            ),
{
    let spectrum = choose|spectrum: Seq<Complex<S>>|
        {
            &&& spectrum.len() == stream::N_FREQ
            &&& #[trigger] stream::spectrum_is(fourier, window, ana, spectrum)
            &&& mix.len() == 2 * stream::N_FREQ
            &&& forall|f: int|
                0 <= f < stream::N_FREQ ==> mix[2 * f] == (#[trigger] spectrum[f]).re && mix[2 * f
                    + 1] == spectrum[f].im
        };
    let seen = choose|seen: Seq<S>|
        {
            &&& state::windowed_is(ana, window, seen)
            &&& #[trigger] fourier::forward_is(fourier, seen, spectrum)
        };
    let (fv, there) = choose|v: &[S], there: Vec<Complex<S>>|
        v@ == seen && there@ == spectrum && #[trigger] call_ensures(
            F::forward,
            (fourier, v),
            there,
        );
    let bins = choose|bins: Seq<Complex<S>>|
        stream::real_ended_is(mix, bins) && #[trigger] stream::frame_is(
            fourier,
            window,
            bins,
            frame,
        );
    let (back, x) = lemma_frame(n, fourier, window, bins, frame);
    lemma_read_back(spectrum, mix, bins);
    assert(fourier::agree_but_for_imaginary_ends(there@, back@));
    assert(call_ensures(F::forward, (fourier, fv), there));
    assert(call_ensures(F::inverse, (fourier, back), x));
    assert forall|i: int| #![trigger frame[i]] 0 <= i < 512 implies (n.value)(frame[i]) == (
    n.value)(ana[i]) * numbers::square((n.value)(window[i])) by {
        assert(sample::multiplies(ana[i], window[i], seen[i]));
        lemma_seen_twice(
            (n.value)(ana[i]),
            (n.value)(window[i]),
            (n.value)(fv@[i]),
            (n.value)(x@[i]),
            (n.value)(frame[i]),
        );
    }
}

/// One hop through a model that echoes.
#[verifier::rlimit(60)]
proof fn lemma_echoed_hop<S: Sample, M: Model<S>, F: Fourier<S>>(
    n: Numbers<S>,
    fourier: &F,
    s: GtcrnStream<S, M::Cache>,
    input: Seq<S>,
    model: M,
    next: GtcrnStream<S, M::Cache>,
    after: M,
    result: Result<[S; HOP], M::Error>,
)
    requires
        n.calculate(),
        restores(n, fourier),
        echoes::<S, M>(),
        s.wf(),
        input.len() == 256,
        s.processes(model, fourier, input, &next, after, result),
    ensures
        result is Ok,
        next.stft == s.stft,
        next.ana_buf@ == state::shifted(s.ana_buf@, input),
        forall|i: int| #![trigger result->Ok_0@[i]]
            0 <= i < 256 ==> (n.value)(result->Ok_0@[i]) == (n.value)(
                latest(s.ana_buf@, input, i),
            ) * numbers::square((n.value)(s.stft.window@[i])) + (n.value)(s.ola@[i]),
        forall|i: int| #![trigger next.ola@[i]]
            0 <= i < 256 ==> (n.value)(next.ola@[i]) == (n.value)(
                latest(s.ana_buf@, input, 256 + i),
            ) * numbers::square((n.value)(s.stft.window@[256 + i])),
{
    let (mix, answer) = choose|
        mix: Seq<S>,
        answer: Result<Answer<S, M::Cache, M::Error>, M::Error>,
    | #[trigger]
        s.runs_hop(model, fourier, input, mix, answer, &next, after, result);
    let window = s.stft.window@;
    let ana = state::shifted(s.ana_buf@, input);
    let (shape, v) = choose|shape: &[usize], v: &[S]|
        {
            &&& shape@ == seq![1usize, 257, 1, 2]
            &&& v@ == mix
            &&& #[trigger] call_ensures(
                M::run,
                (model, shape, v, &s.conv_cache, &s.tra_cache, &s.inter_cache),
                (after, answer),
            )
        };
    assert(call_ensures(
        M::run,
        (model, shape, v, &s.conv_cache, &s.tra_cache, &s.inter_cache),
        (after, answer),
    ));
    let flat = answer->Ok_0.enhanced->Ok_0@;
    let frame = choose|frame: Seq<S>|
        {
            &&& #[trigger] stream::enhanced_frame_is(fourier, window, flat, frame)
            &&& stream::halves_overlap(frame, s.ola@, result->Ok_0@, next.ola@)
        };
    lemma_echoed_frame(n, fourier, window, ana, mix, frame);
    assert forall|i: int| #![trigger frame[i]] 0 <= i < 512 implies (n.value)(frame[i]) == (
    n.value)(latest(s.ana_buf@, input, i)) * numbers::square((n.value)(window[i])) by {
        assert(ana[i] == latest(s.ana_buf@, input, i));
    }
}

/// Behind a model that answers with what it is handed, and through a window whose places complete
/// each other, the second of two hops brings out the first, whatever came before.
pub proof fn echoed_hop_comes_out_a_hop_later<S: Sample, M: Model<S>, F: Fourier<S>>(
    n: Numbers<S>,
    s: &mut GtcrnStream<S, M::Cache>,
    t: &mut GtcrnStream<S, M::Cache>,
    first: &[S],
    second: &[S],
    model: M,
    fourier: &F,
    r: (M, Result<[S; HOP], M::Error>),
    q: (M, Result<[S; HOP], M::Error>),
    i: int,
)
    requires
        n.calculate(),
        restores(n, fourier),
        echoes::<S, M>(),
        old(s).stft.window@.len() == 512,
        (n.value)(old(s).stft.window@[i]) * (n.value)(old(s).stft.window@[i]) + (n.value)(
            old(s).stft.window@[256 + i],
        ) * (n.value)(old(s).stft.window@[256 + i]) == 1real,
        first@.len() == 256,
        second@.len() == 256,
        fourier::has_size(fourier, 512),
        stream::answers_in_full::<S, M>(),
        call_ensures(
            GtcrnStream::<S, M::Cache>::process_frame::<M, F>,
            (s, first, model, fourier),
            r,
        ),
        *old(t) == *final(s),
        call_ensures(
            GtcrnStream::<S, M::Cache>::process_frame::<M, F>,
            (t, second, r.0, fourier),
            q,
        ),
        0 <= i < 256,
    ensures
        q.1 is Ok,
        (n.value)(q.1->Ok_0@[i]) == (n.value)(first@[i]),
{
    lemma_echoed_hop(n, fourier, *old(s), first@, model, *final(s), r.0, r.1);
    lemma_echoed_hop(n, fourier, *old(t), second@, r.0, *final(t), q.0, q.1);
    let window = old(s).stft.window@;
    let a = (n.value)(first@[i]);
    let w = (n.value)(window[i]);
    let z = (n.value)(window[256 + i]);
    assert(latest(old(s).ana_buf@, first@, 256 + i) == first@[i]);
    assert(latest(final(s).ana_buf@, second@, i) == first@[i]);
    assert((n.value)(final(s).ola@[i]) == a * numbers::square(z));
    assert(a * (w * w) + a * (z * z) == a) by (nonlinear_arith)
        requires
            w * w + z * z == 1real,
    ;
}

/// Hop `k` stands at place `256 k` among the hops that are joined.
pub proof fn hops_stand_one_after_the_other<S>(outs: Seq<[S; HOP]>, k: int, j: int)
    requires
        0 <= k < outs.len(),
        0 <= j < 256,
    ensures
        stream::joined(outs).len() == outs.len() * 256,
        stream::joined(outs)[k * 256 + j] == outs[k]@[j],
    decreases outs.len(),
{
    stream::joined_len(outs);
    stream::joined_len(outs.drop_last());
    if k < outs.len() - 1 {
        hops_stand_one_after_the_other(outs.drop_last(), k, j);
    }
}

/// A signal that is enhanced by a model which answers with what it is handed comes out as it was:
/// as long, without delay, and every sample the same.
pub proof fn echoed_signal_is_kept<S: Sample, M: Model<S>, F: Fourier<S>>(
    n: Numbers<S>,
    samples: &[S],
    model: M,
    fourier: &F,
    r: Result<Vec<S>, M::Error>,
)
    requires
        n.calculate(),
        n.take_roots(),
        n.compute_functions(),
        n.turn_right(),
        restores(n, fourier),
        echoes::<S, M>(),
        fourier::has_size(fourier, 512),
        stream::answers_in_full::<S, M>(),
        call_ensures(stream::enhance::<S, M, F>, (samples, model, fourier), r),
    ensures
        r is Ok,
        r->Ok_0@.len() == samples@.len(),
        forall|i: int|
            0 <= i < samples@.len() ==> (n.value)(#[trigger] r->Ok_0@[i]) == (n.value)(samples@[i]),
{
    if r is Err {
        lemma_echo_never_fails(n, fourier, samples@, model, r->Err_0);
    } else {
        let v = r->Ok_0@;
        let (models, streams, outs) = choose|
            models: Seq<M>,
            streams: Seq<GtcrnStream<S, M::Cache>>,
            outs: Seq<[S; HOP]>,
        |
            {
                &&& #[trigger] stream::plays(fourier, samples@, models, streams, outs)
                &&& models[0] == model
                &&& outs.len() == stream::frame_count(samples@.len() as int)
                &&& v == stream::joined(outs).subrange(HOP as int, HOP + samples@.len())
            };
        assert forall|i: int| 0 <= i < samples@.len() implies (n.value)(#[trigger] v[i]) == (
        n.value)(samples@[i]) by {
            lemma_echoed_place(n, fourier, samples@, models, streams, outs, v, i);
        }
    }
}

/// A model that echoes does not fail.
proof fn lemma_echo_never_fails<S: Sample, M: Model<S>, F: Fourier<S>>(
    n: Numbers<S>,
    fourier: &F,
    samples: Seq<S>,
    model: M,
    e: M::Error,
)
    requires
        n.calculate(),
        restores(n, fourier),
        echoes::<S, M>(),
    ensures
        !stream::fails_with(model, fourier, samples, e),
{
    if stream::fails_with(model, fourier, samples, e) {
        let (models, streams, outs, after, next) = choose|
            models: Seq<M>,
            streams: Seq<GtcrnStream<S, M::Cache>>,
            outs: Seq<[S; HOP]>,
            after: M,
            next: GtcrnStream<S, M::Cache>,
        |
            models[0] == model && #[trigger] stream::breaks_off(
                fourier,
                samples,
                models,
                streams,
                outs,
                after,
                next,
                e,
            );
        let s = streams.last();
        stream::latest_samples_are_kept(
            fourier,
            samples,
            models,
            streams,
            outs,
            outs.len() as int,
        );
        let hop = choose|hop: Seq<S>|
            {
                &&& stream::hop_is(samples, outs.len() * HOP, hop)
                &&& #[trigger] s.processes(models.last(), fourier, hop, &next, after, Err(e))
            };
        lemma_echoed_hop(n, fourier, s, hop, models.last(), next, after, Err(e));
    }
}

/// One sample of an echoed signal.
proof fn lemma_echoed_place<S: Sample, M: Model<S>, F: Fourier<S>>(
    n: Numbers<S>,
    fourier: &F,
    samples: Seq<S>,
    models: Seq<M>,
    streams: Seq<GtcrnStream<S, M::Cache>>,
    outs: Seq<[S; HOP]>,
    v: Seq<S>,
    i: int,
)
    requires
        n.calculate(),
        n.take_roots(),
        n.compute_functions(),
        n.turn_right(),
        restores(n, fourier),
        echoes::<S, M>(),
        stream::plays(fourier, samples, models, streams, outs),
        outs.len() == stream::frame_count(samples.len() as int),
        v == stream::joined(outs).subrange(HOP as int, HOP + samples.len()),
        0 <= i < samples.len(),
    ensures
        (n.value)(v[i]) == (n.value)(samples[i]),
{
    let k = i / 256;
    let j = i % 256;
    assert(i == k * 256 + j);
    assert(0 <= j < 256 && 0 <= k);
    assert(k + 1 < outs.len());
    hops_stand_one_after_the_other(outs, k + 1, j);
    assert((k + 1) * 256 + j == 256 + i);
    assert(v[i] == stream::joined(outs)[256 + i]);
    lemma_echoed_sample(n, fourier, samples, models, streams, outs, k, j);
}

#[verifier::rlimit(60)]
proof fn lemma_echoed_sample<S: Sample, M: Model<S>, F: Fourier<S>>(
    n: Numbers<S>,
    fourier: &F,
    samples: Seq<S>,
    models: Seq<M>,
    streams: Seq<GtcrnStream<S, M::Cache>>,
    outs: Seq<[S; HOP]>,
    k: int,
    j: int,
)
    requires
        n.calculate(),
        n.take_roots(),
        n.compute_functions(),
        n.turn_right(),
        restores(n, fourier),
        echoes::<S, M>(),
        stream::plays(fourier, samples, models, streams, outs),
        0 <= k,
        k + 1 < outs.len(),
        0 <= j < 256,
        k * 256 + j < samples.len(),
    ensures
        (n.value)(outs[k + 1]@[j]) == (n.value)(samples[k * 256 + j]),
{
    let (s0, s1, s2) = (streams[k], streams[k + 1], streams[k + 2]);
    stream::latest_samples_are_kept(fourier, samples, models, streams, outs, k);
    stream::latest_samples_are_kept(fourier, samples, models, streams, outs, k + 1);
    let (out0, out1) = (
        Ok::<[S; HOP], M::Error>(outs[k]),
        Ok::<[S; HOP], M::Error>(outs[k + 1]),
    );
    assert(stream::plays_hop(fourier, samples, k, models[k], s0, models[k + 1], s1, out0));
    assert(stream::plays_hop(
        fourier,
        samples,
        k + 1,
        models[k + 1],
        streams[k + 1],
        models[k + 1 + 1],
        streams[k + 1 + 1],
        out1,
    ));
    let hop0 = choose|hop: Seq<S>|
        {
            &&& stream::hop_is(samples, k * HOP, hop)
            &&& #[trigger] s0.processes(models[k], fourier, hop, &s1, models[k + 1], out0)
        };
    let hop1 = choose|hop: Seq<S>|
        {
            &&& stream::hop_is(samples, (k + 1) * HOP, hop)
            &&& #[trigger] s1.processes(models[k + 1], fourier, hop, &s2, models[k + 2], out1)
        };
    lemma_echoed_hop(n, fourier, s0, hop0, models[k], s1, models[k + 1], out0);
    lemma_echoed_hop(n, fourier, s1, hop1, models[k + 1], s2, models[k + 2], out1);
    let window = streams[0].stft.window@;
    windows::lemma_sqrt_hann_complete(n, 512, window, j);
    let a = (n.value)(hop0[j]);
    assert(hop0[j] == samples[k * 256 + j]);
    let w = (n.value)(window[j]);
    let z = (n.value)(window[256 + j]);
    assert(latest(s0.ana_buf@, hop0, 256 + j) == hop0[j]);
    assert(latest(s1.ana_buf@, hop1, j) == hop0[j]);
    assert((n.value)(s1.ola@[j]) == a * numbers::square(z));
    assert((n.value)(out1->Ok_0@[j]) == a * numbers::square(w) + (n.value)(s1.ola@[j]));
    assert(a * (w * w) + a * (z * z) == a) by (nonlinear_arith)
        requires
            w * w + z * z == 1real,
    ;
}

} // verus!
