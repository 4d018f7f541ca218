//! Streaming enhancement with a recurrent model, one hop of samples at a time.
//!
//! Each hop is joined to the one before it, seen through a square-root Hann window and turned
//! into a spectrum. A [`Model`] answers with the enhanced spectrum and with the caches that it
//! wants back for the next hop. The enhanced spectrum is turned back into a frame, seen through
//! the same window, and added to what the frame before it left over.
use vstd::prelude::*;

use crate::complex::Complex;
use crate::fourier;
use crate::fourier::Fourier;
use crate::sample;
use crate::sample::Sample;
use crate::state;

verus! {

/// The sample rate that the model is made for, in hertz.
pub const SAMPLE_RATE: u32 = 16000;

/// The number of samples that a window spans.
pub const N_FFT: usize = 512;

/// The number of samples that come in, and go out, at a time.
pub const HOP: usize = 256;

/// The number of bins of a spectrum.
pub const N_FREQ: usize = N_FFT / 2 + 1;

/// The shape of the tensor that a spectrum is handed to the model in.
pub fn mix_shape() -> (r: [usize; 4])
    ensures
        r@ == seq![1usize, 257, 1, 2],
{
    [1, N_FREQ, 1, 2]
}

/// The shape of the convolution cache.
pub fn conv_cache_shape() -> (r: [usize; 5])
    ensures
        r@ == seq![2usize, 1, 16, 16, 33],
{
    [2, 1, 16, 16, 33]
}

/// The shape of the attention cache.
pub fn tra_cache_shape() -> (r: [usize; 5])
    ensures
        r@ == seq![2usize, 3, 1, 1, 16],
{
    [2, 3, 1, 1, 16]
}

/// The shape of the recurrent cache.
pub fn inter_cache_shape() -> (r: [usize; 4])
    ensures
        r@ == seq![2usize, 1, 33, 16],
{
    [2, 1, 33, 16]
}

// The window.

/// `r` is a value of `2 pi i / n`.
pub open spec fn angle_is<S: Sample>(i: usize, n: usize, r: S) -> bool {
    exists|two: S, pi: S, turn: S, place: S, arc: S, len: S|
        {
            &&& #[trigger] sample::is_decimal(2, 0, two)
            &&& #[trigger] sample::is_pi(pi)
            &&& #[trigger] sample::multiplies(two, pi, turn)
            &&& #[trigger] sample::is_count(i, place)
            &&& #[trigger] sample::multiplies(turn, place, arc)
            &&& #[trigger] sample::is_count(n, len)
            &&& sample::divides(arc, len, r)
        }
}

/// `r` is place `i` of the square-root Hann window over `n` samples: a value of
/// `sqrt(0.5 - 0.5 cos(2 pi i / n))`.
pub open spec fn sqrt_hann_is<S: Sample>(i: usize, n: usize, r: S) -> bool {
    exists|half: S, angle: S, wave: S, part: S, h: S|
        {
            &&& sample::is_decimal(5, 1, half)
            &&& #[trigger] angle_is(i, n, angle)
            &&& #[trigger] call_ensures(S::cosine, (angle,), wave)
            &&& #[trigger] sample::multiplies(half, wave, part)
            &&& #[trigger] sample::subtracts(half, part, h)
            &&& sample::roots(h, r)
        }
}

/// `v` is the square-root Hann window over `n` samples.
pub open spec fn sqrt_hann_window<S: Sample>(n: usize, v: Seq<S>) -> bool {
    &&& v.len() == n
    &&& forall|i: int| 0 <= i < n ==> sqrt_hann_is(i as usize, n, #[trigger] v[i])
}

/// The square-root Hann window over `n` samples.
pub fn sqrt_hann<S: Sample>(n: usize) -> (v: Vec<S>)
    ensures
        sqrt_hann_window(n, v@),
{
    let mut v: Vec<S> = Vec::new();
    let mut i: usize = 0;
    while i < n
        invariant
            i <= n,
            v@.len() == i,
            forall|j: int| 0 <= j < i ==> sqrt_hann_is(j as usize, n, #[trigger] v@[j]),
        decreases n - i,
    {
        let turn: S = S::decimal(2, 0).times(S::pi());
        let angle: S = turn.times(S::from_count(i)).over(S::from_count(n));
        assert(angle_is(i, n, angle));
        let half: S = S::decimal(5, 1);
        let h: S = half.minus(half.times(angle.cosine()));
        let r: S = h.square_root();
        assert(sqrt_hann_is(i, n, r));
        v.push(r);
        i += 1;
    }
    v
}

// Between frames and spectra.

/// `r` is a value of `x / n * w`.
pub open spec fn normalized_is<S: Sample>(x: S, n: S, w: S, r: S) -> bool {
    exists|q: S| #[trigger] sample::divides(x, n, q) && sample::multiplies(q, w, r)
}

/// `spectrum` is the spectrum of `frame` seen through `window`.
pub open spec fn spectrum_is<S: Sample, F: Fourier<S>>(
    fourier: &F,
    window: Seq<S>,
    frame: Seq<S>,
    spectrum: Seq<Complex<S>>,
) -> bool {
    exists|seen: Seq<S>|
        {
            &&& state::windowed_is(frame, window, seen)
            &&& #[trigger] fourier::forward_is(fourier, seen, spectrum)
        }
}

/// `frame` is what `spectrum` is turned back into, divided by the window's length and seen
/// through `window`.
pub open spec fn frame_is<S: Sample, F: Fourier<S>>(
    fourier: &F,
    window: Seq<S>,
    spectrum: Seq<Complex<S>>,
    frame: Seq<S>,
) -> bool {
    exists|x: Seq<S>, n: S|
        {
            &&& #[trigger] fourier::inverse_is(fourier, spectrum, x)
            &&& #[trigger] sample::is_count(N_FFT, n)
            &&& frame.len() == N_FFT
            &&& forall|i: int| 0 <= i < N_FFT ==> normalized_is(x[i], n, window[i], #[trigger] frame[i])
        }
}

/// The transform between frames of `N_FFT` samples and spectra of `N_FREQ` bins, through a
/// window on both sides.
pub struct Stft<S> {
    /// The window.
    pub window: Vec<S>,
}

impl<S: Sample> Stft<S> {
    /// The window spans a frame.
    pub open spec fn wf(&self) -> bool {
        self.window@.len() == N_FFT
    }

    /// The transform through the square-root Hann window.
    pub fn new() -> (r: Self)
        ensures
            r.wf(),
            sqrt_hann_window(N_FFT, r.window@),
    {
        Stft { window: sqrt_hann(N_FFT) }
    }

    /// The spectrum of a frame seen through the window.
    pub fn forward<F: Fourier<S>>(&self, frame: &[S], fourier: &F) -> (spectrum: Vec<Complex<S>>)
        requires
            self.wf(),
            frame@.len() == N_FFT,
            fourier::has_size(fourier, N_FFT as int),
        ensures
            spectrum@.len() == N_FREQ,
            spectrum_is(fourier, self.window@, frame@, spectrum@),
    {
        let seen: Vec<S> = state::apply_window(frame, &self.window);
        let spectrum: Vec<Complex<S>> = fourier.forward(&seen);
        assert(fourier::forward_is(fourier, seen@, spectrum@));
        spectrum
    }

    /// The frame with the given spectrum, seen through the window.
    pub fn inverse<F: Fourier<S>>(&self, spectrum: &[Complex<S>], fourier: &F) -> (frame: Vec<S>)
        requires
            self.wf(),
            spectrum@.len() == N_FREQ,
            fourier::has_size(fourier, N_FFT as int),
        ensures
            frame_is(fourier, self.window@, spectrum@, frame@),
    {
        let x: Vec<S> = fourier.inverse(spectrum);
        assert(fourier::inverse_is(fourier, spectrum@, x@));
        let n: S = S::from_count(N_FFT);
        let mut frame: Vec<S> = Vec::new();
        let mut i: usize = 0;
        while i < N_FFT
            invariant
                i <= N_FFT,
                self.wf(),
                x@.len() == N_FFT,
                frame@.len() == i,
                forall|j: int|
                    0 <= j < i ==> normalized_is(x@[j], n, self.window@[j], #[trigger] frame@[j]),
            decreases N_FFT - i,
        {
            let v: S = x[i].over(n).times(self.window[i]);
            assert(normalized_is(x@[i as int], n, self.window@[i as int], v));
            frame.push(v);
            i += 1;
        }
        frame
    }
}

/// A spectrum laid out flat: real and imaginary parts in turn.
pub open spec fn interleaved<S>(spectrum: Seq<Complex<S>>) -> Seq<S> {
    Seq::new(
        (2 * spectrum.len()) as nat,
        |i: int|
            if i % 2 == 0 {
                spectrum[i / 2].re
            } else {
                spectrum[i / 2].im
            },
    )
}

/// Lays a spectrum out flat.
pub fn interleave<S: Sample>(spectrum: &[Complex<S>]) -> (mix: Vec<S>)
    ensures
        mix@ == interleaved(spectrum@),
        mix@.len() == 2 * spectrum@.len(),
        forall|f: int|
            0 <= f < spectrum@.len() ==> mix@[2 * f] == (#[trigger] spectrum@[f]).re && mix@[2 * f
                + 1] == spectrum@[f].im,
{
    let mut mix: Vec<S> = Vec::new();
    let mut f: usize = 0;
    while f < spectrum.len()
        invariant
            f <= spectrum@.len(),
            mix@.len() == 2 * f,
            forall|i: int| 0 <= i < 2 * f ==> mix@[i] == #[trigger] interleaved(spectrum@)[i],
            forall|g: int|
                0 <= g < f ==> mix@[2 * g] == (#[trigger] spectrum@[g]).re && mix@[2 * g + 1]
                    == spectrum@[g].im,
        decreases spectrum@.len() - f,
    {
        mix.push(spectrum[f].re);
        mix.push(spectrum[f].im);
        f += 1;
    }
    assert(mix@ =~= interleaved(spectrum@));
    mix
}

/// `r` is the spectrum that `flat` lays out, with the first and the last bin made real.
pub open spec fn real_ended_is<S: Sample>(flat: Seq<S>, r: Seq<Complex<S>>) -> bool {
    &&& r.len() == N_FREQ
    &&& forall|f: int| 0 <= f < N_FREQ ==> (#[trigger] r[f]).re == flat[2 * f]
    &&& forall|f: int| 0 < f < N_FREQ - 1 ==> (#[trigger] r[f]).im == flat[2 * f + 1]
    &&& sample::is_zero(r[0].im)
    &&& sample::is_zero(r[N_FREQ - 1].im)
}

/// The spectrum that `flat` lays out. The first and the last bin of a real signal's spectrum are
/// real, so their imaginary parts are dropped.
pub fn real_ended<S: Sample>(flat: &[S]) -> (r: Vec<Complex<S>>)
    requires
        flat@.len() >= 2 * N_FREQ,
    ensures
        real_ended_is(flat@, r@),
        r@.len() == 257,
        forall|f: int| 0 <= f < 257 ==> (#[trigger] r@[f]).re == flat@[2 * f],
        forall|f: int| 0 < f < 256 ==> (#[trigger] r@[f]).im == flat@[2 * f + 1],
        sample::is_zero(r@[0].im),
        sample::is_zero(r@[256].im),
{
    let mut r: Vec<Complex<S>> = Vec::new();
    let mut f: usize = 0;
    while f < N_FREQ
        invariant
            f <= N_FREQ,
            flat@.len() >= 2 * N_FREQ,
            r@.len() == f,
            forall|g: int| 0 <= g < f ==> (#[trigger] r@[g]).re == flat@[2 * g],
            forall|g: int| 0 < g < f && g < N_FREQ - 1 ==> (#[trigger] r@[g]).im == flat@[2 * g + 1],
            f > 0 ==> sample::is_zero(r@[0].im),
            f == N_FREQ ==> sample::is_zero(r@[N_FREQ - 1].im),
        decreases N_FREQ - f,
    {
        let im: S = if f == 0 || f == N_FREQ - 1 {
            S::zero()
        } else {
            flat[2 * f + 1]
        };
        r.push(Complex { re: flat[2 * f], im });
        f += 1;
    }
    r
}

// The model.

/// What a model answers to one hop.
pub struct Answer<S, C, E> {
    /// The enhanced spectrum, laid out flat, or why it cannot be read.
    pub enhanced: Result<Vec<S>, E>,
    /// The convolution cache for the next hop.
    pub conv: C,
    /// The attention cache for the next hop.
    pub tra: C,
    /// The recurrent cache for the next hop.
    pub inter: C,
}

/// A recurrent model of enhancement. What it computes is its own affair: the contracts of this
/// module say what it is handed and what becomes of its answer.
pub trait Model<S: Sample>: Sized {
    /// What the model remembers between hops.
    type Cache;

    /// Why the model fails.
    type Error;

    /// A cache of the given shape that remembers nothing.
    fn zero_cache(&self, shape: &[usize]) -> Self::Cache;

    /// One run: from the spectrum of a hop, laid out flat as a tensor of the given shape, and the
    /// caches. The session is used up and handed back as the run left it.
    fn run(
        self,
        shape: &[usize],
        mix: &[S],
        conv: &Self::Cache,
        tra: &Self::Cache,
        inter: &Self::Cache,
    ) -> (Self, Result<Answer<S, Self::Cache, Self::Error>, Self::Error>);
}

/// `cache` is a result of `model.zero_cache` for the given shape.
pub open spec fn zero_cache_is<S: Sample, M: Model<S>>(
    model: &M,
    shape: Seq<usize>,
    cache: M::Cache,
) -> bool {
    exists|v: &[usize]|
        v@ == shape && #[trigger] call_ensures(M::zero_cache, (model, v), cache)
}

/// The session `model` answers `answer` to the given spectrum and caches, in one run that leaves
/// it as `after`.
pub open spec fn run_is<S: Sample, M: Model<S>>(
    model: M,
    mix: Seq<S>,
    conv: M::Cache,
    tra: M::Cache,
    inter: M::Cache,
    after: M,
    answer: Result<Answer<S, M::Cache, M::Error>, M::Error>,
) -> bool {
    exists|shape: &[usize], v: &[S]|
        {
            &&& shape@ == seq![1usize, 257, 1, 2]
            &&& v@ == mix
            &&& #[trigger] call_ensures(
                M::run,
                (model, shape, v, &conv, &tra, &inter),
                (after, answer),
            )
        }
}

/// Every enhanced spectrum that a session answers with holds all bins.
pub open spec fn answers_in_full<S: Sample, M: Model<S>>() -> bool {
    forall|
        model: M,
        shape: &[usize],
        v: &[S],
        conv: M::Cache,
        tra: M::Cache,
        inter: M::Cache,
        after: M,
        answer: Result<Answer<S, M::Cache, M::Error>, M::Error>,
    |
        #[trigger] call_ensures(
            M::run,
            (model, shape, v, &conv, &tra, &inter),
            (after, answer),
        ) ==> (answer matches Ok(a) ==> (a.enhanced matches Ok(flat) ==> flat@.len() >= 2
            * N_FREQ))
}

// One hop.

/// `mix` is the spectrum of the frame `ana` seen through `window`, laid out flat.
pub open spec fn mix_is<S: Sample, F: Fourier<S>>(
    fourier: &F,
    window: Seq<S>,
    ana: Seq<S>,
    mix: Seq<S>,
) -> bool {
    exists|spectrum: Seq<Complex<S>>|
        {
            &&& spectrum.len() == N_FREQ
            &&& #[trigger] spectrum_is(fourier, window, ana, spectrum)
            &&& mix.len() == 2 * N_FREQ
            &&& forall|f: int|
                0 <= f < N_FREQ ==> mix[2 * f] == (#[trigger] spectrum[f]).re && mix[2 * f + 1]
                    == spectrum[f].im
        }
}

/// `frame` is what the enhanced spectrum `flat` is turned back into.
pub open spec fn enhanced_frame_is<S: Sample, F: Fourier<S>>(
    fourier: &F,
    window: Seq<S>,
    flat: Seq<S>,
    frame: Seq<S>,
) -> bool {
    exists|spectrum: Seq<Complex<S>>|
        real_ended_is(flat, spectrum) && #[trigger] frame_is(fourier, window, spectrum, frame)
}

/// `out` is the first half of `frame` added to `ola`, and `ola2` its second half.
pub open spec fn halves_overlap<S: Sample>(
    frame: Seq<S>,
    ola: Seq<S>,
    out: Seq<S>,
    ola2: Seq<S>,
) -> bool {
    &&& out.len() == HOP
    &&& forall|i: int| 0 <= i < HOP ==> sample::adds(frame[i], ola[i], #[trigger] out[i])
    &&& ola2 == frame.subrange(HOP as int, N_FFT as int)
}

/// The state of one enhanced stream.
pub struct GtcrnStream<S, C> {
    /// The transform, with its window.
    pub stft: Stft<S>,
    /// The last samples that came in, as many as a window spans.
    pub ana_buf: [S; N_FFT],
    /// What the last frame contributes to the next hop that goes out.
    pub ola: [S; HOP],
    /// The convolution cache.
    pub conv_cache: C,
    /// The attention cache.
    pub tra_cache: C,
    /// The recurrent cache.
    pub inter_cache: C,
}

impl<S: Sample, C> GtcrnStream<S, C> {
    /// The window spans a frame.
    pub open spec fn wf(&self) -> bool {
        self.stft.wf()
    }

    /// The stream has heard nothing yet: silence behind it, and caches that remember nothing.
    pub open spec fn is_fresh<M: Model<S, Cache = C>>(&self, model: &M) -> bool {
        &&& sample::silence(self.ana_buf@, N_FFT as int)
        &&& sample::silence(self.ola@, HOP as int)
        &&& zero_cache_is::<S, M>(model, seq![2usize, 1, 16, 16, 33], self.conv_cache)
        &&& zero_cache_is::<S, M>(model, seq![2usize, 3, 1, 1, 16], self.tra_cache)
        &&& zero_cache_is::<S, M>(model, seq![2usize, 1, 33, 16], self.inter_cache)
    }

    /// All that changes is the signal that came in last: `input` joined it.
    pub open spec fn hears(&self, input: Seq<S>, next: &Self) -> bool {
        &&& next.ana_buf@ == state::shifted(self.ana_buf@, input)
        &&& next.stft == self.stft
        &&& next.ola == self.ola
        &&& next.conv_cache == self.conv_cache
        &&& next.tra_cache == self.tra_cache
        &&& next.inter_cache == self.inter_cache
    }

    /// What becomes of the model's answer: the caches are kept; and if the enhanced spectrum can
    /// be read, the next hop goes out.
    pub open spec fn settles<E, F: Fourier<S>>(
        &self,
        fourier: &F,
        answer: Answer<S, C, E>,
        next: &Self,
        result: Result<[S; HOP], E>,
    ) -> bool {
        &&& next.ana_buf == self.ana_buf
        &&& next.stft == self.stft
        &&& next.conv_cache == answer.conv
        &&& next.tra_cache == answer.tra
        &&& next.inter_cache == answer.inter
        &&& match answer.enhanced {
            Ok(flat) => {
                &&& result is Ok
                &&& exists|frame: Seq<S>|
                    {
                        &&& #[trigger] enhanced_frame_is(
                            fourier,
                            self.stft.window@,
                            flat@,
                            frame,
                        )
                        &&& halves_overlap(frame, self.ola@, result->Ok_0@, next.ola@)
                    }
            },
            Err(e) => result == Err::<[S; HOP], E>(e) && next.ola == self.ola,
        }
    }

    /// One hop, with the run that it takes: `input` joins the signal, whose spectrum `mix` goes to
    /// the model; and its answer is settled. Where the model fails, only the signal has moved on.
    pub open spec fn runs_hop<M: Model<S, Cache = C>, F: Fourier<S>>(
        &self,
        model: M,
        fourier: &F,
        input: Seq<S>,
        mix: Seq<S>,
        answer: Result<Answer<S, C, M::Error>, M::Error>,
        next: &Self,
        after: M,
        result: Result<[S; HOP], M::Error>,
    ) -> bool {
        exists|heard: Self|
            {
                &&& #[trigger] self.hears(input, &heard)
                &&& mix_is(fourier, self.stft.window@, heard.ana_buf@, mix)
                &&& run_is::<S, M>(
                    model,
                    mix,
                    self.conv_cache,
                    self.tra_cache,
                    self.inter_cache,
                    after,
                    answer,
                )
                &&& match answer {
                    Ok(a) => heard.settles(fourier, a, next, result),
                    Err(e) => result == Err::<[S; HOP], M::Error>(e) && *next == heard,
                }
            }
    }

    /// One hop, in one run of the session, which is left as `after`.
    pub open spec fn processes<M: Model<S, Cache = C>, F: Fourier<S>>(
        &self,
        model: M,
        fourier: &F,
        input: Seq<S>,
        next: &Self,
        after: M,
        result: Result<[S; HOP], M::Error>,
    ) -> bool {
        exists|mix: Seq<S>, answer: Result<Answer<S, C, M::Error>, M::Error>| #[trigger]
            self.runs_hop(model, fourier, input, mix, answer, next, after, result)
    }

    /// A stream that has heard nothing yet.
    pub fn new<M: Model<S, Cache = C>>(model: &M) -> (r: Self)
        ensures
            r.wf(),
            r.is_fresh(model),
            sqrt_hann_window(N_FFT, r.stft.window@),
    {
        GtcrnStream {
            stft: Stft::new(),
            ana_buf: [S::zero(); N_FFT],
            ola: [S::zero(); HOP],
            conv_cache: model.zero_cache(conv_cache_shape().as_slice()),
            tra_cache: model.zero_cache(tra_cache_shape().as_slice()),
            inter_cache: model.zero_cache(inter_cache_shape().as_slice()),
        }
    }

    /// Forgets all that was heard.
    pub fn reset<M: Model<S, Cache = C>>(&mut self, model: &M)
        ensures
            final(self).is_fresh(model),
            final(self).stft == old(self).stft,
    {
        self.ana_buf = [S::zero(); N_FFT];
        self.ola = [S::zero(); HOP];
        self.conv_cache = model.zero_cache(conv_cache_shape().as_slice());
        self.tra_cache = model.zero_cache(tra_cache_shape().as_slice());
        self.inter_cache = model.zero_cache(inter_cache_shape().as_slice());
    }

    /// Joins a hop to the signal.
    pub fn hear(&mut self, input: &[S])
        requires
            input@.len() == HOP,
        ensures
            old(self).hears(input@, final(self)),
    {
        let mut i: usize = 0;
        while i < HOP
            invariant
                i <= HOP,
                input@.len() == HOP,
                self.stft == old(self).stft,
                self.ola == old(self).ola,
                self.conv_cache == old(self).conv_cache,
                self.tra_cache == old(self).tra_cache,
                self.inter_cache == old(self).inter_cache,
                forall|j: int|
                    0 <= j < i ==> #[trigger] self.ana_buf@[j] == old(self).ana_buf@[j + HOP],
                forall|j: int|
                    i <= j < HOP ==> #[trigger] self.ana_buf@[j] == old(self).ana_buf@[j],
                forall|j: int|
                    HOP <= j < i + HOP ==> #[trigger] self.ana_buf@[j] == input@[j - HOP],
                forall|j: int|
                    i + HOP <= j < N_FFT ==> #[trigger] self.ana_buf@[j] == old(self).ana_buf@[j],
            decreases HOP - i,
        {
            self.ana_buf[i] = self.ana_buf[i + HOP];
            self.ana_buf[i + HOP] = input[i];
            i += 1;
        }
        assert(self.ana_buf@ =~= state::shifted(old(self).ana_buf@, input@));
    }

    /// The spectrum of the signal that came in last, laid out flat.
    pub fn mix<F: Fourier<S>>(&self, fourier: &F) -> (mix: Vec<S>)
        requires
            self.wf(),
            fourier::has_size(fourier, N_FFT as int),
        ensures
            mix_is(fourier, self.stft.window@, self.ana_buf@, mix@),
            mix@.len() == 514,
            exists|spectrum: Seq<Complex<S>>|
                {
                    &&& spectrum.len() == 257
                    &&& #[trigger] spectrum_is(
                        fourier,
                        self.stft.window@,
                        self.ana_buf@,
                        spectrum,
                    )
                    &&& forall|f: int|
                        0 <= f < 257 ==> mix@[2 * f] == (#[trigger] spectrum[f]).re && mix@[2 * f
                            + 1] == spectrum[f].im
                },
    {
        let spectrum: Vec<Complex<S>> = self.stft.forward(self.ana_buf.as_slice(), fourier);
        let mix: Vec<S> = interleave(&spectrum);
        assert(spectrum_is(fourier, self.stft.window@, self.ana_buf@, spectrum@));
        mix
    }

    /// Keeps the caches that the model answered with, and turns the enhanced spectrum into the
    /// next hop that goes out.
    pub fn settle<E, F: Fourier<S>>(
        &mut self,
        answer: Answer<S, C, E>,
        fourier: &F,
    ) -> (result: Result<[S; HOP], E>)
        requires
            old(self).wf(),
            answer.enhanced matches Ok(flat) ==> flat@.len() >= 2 * N_FREQ,
            fourier::has_size(fourier, N_FFT as int),
        ensures
            old(self).settles(fourier, answer, final(self), result),
            (answer.enhanced matches Ok(flat) ==> exists|bins: Seq<Complex<S>>, frame: Seq<S>|
                {
                    &&& bins.len() == 257
                    &&& forall|f: int| 0 <= f < 257 ==> (#[trigger] bins[f]).re == flat@[2 * f]
                    &&& forall|f: int| 0 < f < 256 ==> (#[trigger] bins[f]).im == flat@[2 * f + 1]
                    &&& sample::is_zero(bins[0].im)
                    &&& sample::is_zero(bins[256].im)
                    &&& #[trigger] frame_is(fourier, old(self).stft.window@, bins, frame)
                    &&& result is Ok
                    &&& forall|i: int|
                        0 <= i < 256 ==> sample::adds(
                            frame[i],
                            old(self).ola@[i],
                            #[trigger] result->Ok_0@[i],
                        )
                    &&& forall|i: int|
                        0 <= i < 256 ==> #[trigger] final(self).ola@[i] == frame[256 + i]
                }),
    {
        let ghost ola = self.ola@;
        self.conv_cache = answer.conv;
        self.tra_cache = answer.tra;
        self.inter_cache = answer.inter;
        match answer.enhanced {
            Ok(flat) => {
                let spectrum: Vec<Complex<S>> = real_ended(&flat);
                let frame: Vec<S> = self.stft.inverse(&spectrum, fourier);
                assert(enhanced_frame_is(fourier, self.stft.window@, flat@, frame@));
                let mut out: [S; HOP] = [S::zero(); HOP];
                let ghost before = *self;
                let mut i: usize = 0;
                while i < HOP
                    invariant
                        i <= HOP,
                        frame@.len() == N_FFT,
                        self.stft == before.stft,
                        self.ana_buf == before.ana_buf,
                        self.conv_cache == before.conv_cache,
                        self.tra_cache == before.tra_cache,
                        self.inter_cache == before.inter_cache,
                        forall|j: int|
                            0 <= j < i ==> sample::adds(frame@[j], ola[j], #[trigger] out@[j]),
                        forall|j: int| 0 <= j < i ==> #[trigger] self.ola@[j] == frame@[j + HOP],
                        forall|j: int| i <= j < HOP ==> #[trigger] self.ola@[j] == ola[j],
                    decreases HOP - i,
                {
                    out[i] = frame[i].plus(self.ola[i]);
                    self.ola[i] = frame[i + HOP];
                    i += 1;
                }
                assert(self.ola@ =~= frame@.subrange(HOP as int, N_FFT as int));
                assert(halves_overlap(frame@, ola, out@, self.ola@));
                assert(frame_is(fourier, old(self).stft.window@, spectrum@, frame@));
                Ok(out)
            },
            Err(e) => Err(e),
        }
    }

    /// Takes in a hop and gives out a hop, one hop behind.
    #[verifier::rlimit(60)]
    pub fn process_frame<M: Model<S, Cache = C>, F: Fourier<S>>(
        &mut self,
        input: &[S],
        model: M,
        fourier: &F,
    ) -> (r: (M, Result<[S; HOP], M::Error>))
        requires
            old(self).wf(),
            input@.len() == HOP,
            fourier::has_size(fourier, N_FFT as int),
            answers_in_full::<S, M>(),
        ensures
            old(self).processes(model, fourier, input@, final(self), r.0, r.1),
            final(self).wf(),
            exists|
                spectrum: Seq<Complex<S>>,
                shape: &[usize],
                mix: &[S],
                answer: Result<Answer<S, C, M::Error>, M::Error>,
            |
                {
                    &&& spectrum.len() == 257
                    &&& #[trigger] spectrum_is(
                        fourier,
                        old(self).stft.window@,
                        old(self).ana_buf@.skip(256) + input@,
                        spectrum,
                    )
                    // Element (0, f, 0, 0) of the tensor is the real part of bin f, and element
                    // (0, f, 0, 1) its imaginary part.
                    &&& mix@.len() == 514
                    &&& forall|f: int|
                        0 <= f < 257 ==> mix@[2 * f] == (#[trigger] spectrum[f]).re && mix@[2 * f
                            + 1] == spectrum[f].im
                    &&& shape@ == seq![1usize, 257, 1, 2]
                    &&& #[trigger] call_ensures(
                        M::run,
                        (
                            model,
                            shape,
                            mix,
                            &old(self).conv_cache,
                            &old(self).tra_cache,
                            &old(self).inter_cache,
                        ),
                        (r.0, answer),
                    )
                    &&& match answer {
                        Err(e) => {
                            &&& r.1 == Err::<[S; HOP], M::Error>(e)
                            &&& final(self).ola@ == old(self).ola@
                            &&& final(self).conv_cache == old(self).conv_cache
                            &&& final(self).tra_cache == old(self).tra_cache
                            &&& final(self).inter_cache == old(self).inter_cache
                        },
                        Ok(a) => {
                            &&& final(self).conv_cache == a.conv
                            &&& final(self).tra_cache == a.tra
                            &&& final(self).inter_cache == a.inter
                            &&& match a.enhanced {
                                Err(e) => {
                                    &&& r.1 == Err::<[S; HOP], M::Error>(e)
                                    &&& final(self).ola@ == old(self).ola@
                                },
                                // The enhanced spectrum is laid out in the same way.
                                Ok(flat) => r.1 is Ok && exists|
                                    bins: Seq<Complex<S>>,
                                    frame: Seq<S>,
                                |
                                    {
                                        &&& bins.len() == 257
                                        &&& forall|f: int|
                                            0 <= f < 257 ==> (#[trigger] bins[f]).re == flat@[2 * f]
                                        &&& forall|f: int|
                                            0 < f < 256 ==> (#[trigger] bins[f]).im == flat@[2 * f
                                                + 1]
                                        &&& sample::is_zero(bins[0].im)
                                        &&& sample::is_zero(bins[256].im)
                                        &&& #[trigger] frame_is(
                                            fourier,
                                            old(self).stft.window@,
                                            bins,
                                            frame,
                                        )
                                        &&& forall|i: int|
                                            0 <= i < 256 ==> sample::adds(
                                                frame[i],
                                                old(self).ola@[i],
                                                #[trigger] r.1->Ok_0@[i],
                                            )
                                        &&& forall|i: int|
                                            0 <= i < 256 ==> #[trigger] final(self).ola@[i]
                                                == frame[256 + i]
                                    },
                            }
                        },
                    }
                },
    {
        self.hear(input);
        let ghost heard = *self;
        let mix: Vec<S> = self.mix(fourier);
        assert(heard.ana_buf@ =~= old(self).ana_buf@.skip(256) + input@);
        let ghost spectrum = choose|spectrum: Seq<Complex<S>>|
            {
                &&& spectrum.len() == 257
                &&& #[trigger] spectrum_is(fourier, self.stft.window@, self.ana_buf@, spectrum)
                &&& forall|f: int|
                    0 <= f < 257 ==> mix@[2 * f] == (#[trigger] spectrum[f]).re && mix@[2 * f + 1]
                        == spectrum[f].im
            };
        assert(spectrum_is(
            fourier,
            old(self).stft.window@,
            old(self).ana_buf@.skip(256) + input@,
            spectrum,
        ));
        let dims: [usize; 4] = mix_shape();
        let shape: &[usize] = dims.as_slice();
        let tensor: &[S] = mix.as_slice();
        let (after, answer): (M, Result<Answer<S, C, M::Error>, M::Error>) = model.run(
            shape,
            tensor,
            &self.conv_cache,
            &self.tra_cache,
            &self.inter_cache,
        );
        assert(run_is::<S, M>(
            model,
            mix@,
            heard.conv_cache,
            heard.tra_cache,
            heard.inter_cache,
            after,
            answer,
        ));
        assert(old(self).hears(input@, &heard));
        let result: Result<[S; HOP], M::Error> = match answer {
            Ok(a) => self.settle(a, fourier),
            Err(e) => Err(e),
        };
        assert(old(self).runs_hop(model, fourier, input@, mix@, answer, self, after, result));
        let r: (M, Result<[S; HOP], M::Error>) = (after, result);
        assert(call_ensures(
            M::run,
            (
                model,
                shape,
                tensor,
                &old(self).conv_cache,
                &old(self).tra_cache,
                &old(self).inter_cache,
            ),
            (r.0, answer),
        ));
        r
    }
}

// A whole signal.

/// `hop` is what `samples` holds from place `pos` on, with zeros where it has ended.
pub open spec fn hop_is<S: Sample>(samples: Seq<S>, pos: int, hop: Seq<S>) -> bool {
    &&& hop.len() == HOP
    &&& forall|i: int|
        0 <= i < HOP && pos + i < samples.len() ==> #[trigger] hop[i] == samples[pos + i]
    &&& forall|i: int|
        0 <= i < HOP && pos + i >= samples.len() ==> sample::is_zero(#[trigger] hop[i])
}

/// The hop that `samples` holds from place `pos` on, with zeros where it has ended.
pub fn next_hop<S: Sample>(samples: &[S], pos: usize) -> (hop: [S; HOP])
    ensures
        hop_is(samples@, pos as int, hop@),
{
    let len: usize = samples.len();
    let rest: usize = if pos < len {
        len - pos
    } else {
        0
    };
    let mut hop: [S; HOP] = [S::zero(); HOP];
    let mut i: usize = 0;
    while i < HOP && i < rest
        invariant
            i <= HOP,
            i <= rest,
            len == samples@.len(),
            rest == (if pos < len {
                len - pos
            } else {
                0
            }),
            forall|j: int| 0 <= j < i ==> #[trigger] hop@[j] == samples@[pos + j],
            forall|j: int| i <= j < HOP ==> sample::is_zero(#[trigger] hop@[j]),
        decreases HOP - i,
    {
        hop[i] = samples[pos + i];
        i += 1;
    }
    hop
}

/// How many hops it takes to enhance a signal: those that it fills, and one more to get at what
/// the last frame left over.
pub open spec fn frame_count(len: int) -> int {
    (len + HOP - 1) / HOP as int + 1
}

/// Hop `k` of `samples` takes the session and the stream from one state to the next, with the
/// given result.
pub open spec fn plays_hop<S: Sample, M: Model<S>, F: Fourier<S>>(
    fourier: &F,
    samples: Seq<S>,
    k: int,
    model: M,
    stream: GtcrnStream<S, M::Cache>,
    after: M,
    next: GtcrnStream<S, M::Cache>,
    result: Result<[S; HOP], M::Error>,
) -> bool {
    exists|hop: Seq<S>|
        {
            &&& hop_is(samples, k * HOP, hop)
            &&& #[trigger] stream.processes(model, fourier, hop, &next, after, result)
        }
}

/// The first hops of `samples`, as many as `outs` has, take a session through `models` and a fresh
/// stream through `streams`, and give out `outs`.
pub open spec fn plays<S: Sample, M: Model<S>, F: Fourier<S>>(
    fourier: &F,
    samples: Seq<S>,
    models: Seq<M>,
    streams: Seq<GtcrnStream<S, M::Cache>>,
    outs: Seq<[S; HOP]>,
) -> bool {
    &&& models.len() == outs.len() + 1
    &&& streams.len() == outs.len() + 1
    &&& streams[0].is_fresh(&models[0])
    &&& sqrt_hann_window(N_FFT, streams[0].stft.window@)
    &&& forall|k: int|
        0 <= k < outs.len() ==> plays_hop(
            fourier,
            samples,
            k,
            models[k],
            #[trigger] streams[k],
            models[k + 1],
            streams[k + 1],
            Ok(outs[k]),
        )
}

/// The hops one after the other.
pub open spec fn joined<S>(outs: Seq<[S; HOP]>) -> Seq<S>
    decreases outs.len(),
{
    if outs.len() == 0 {
        Seq::empty()
    } else {
        joined(outs.drop_last()) + outs.last()@
    }
}

/// The hops one after the other are as long as all of them together.
pub proof fn joined_len<S>(outs: Seq<[S; HOP]>)
    ensures
        joined(outs).len() == outs.len() * HOP,
    decreases outs.len(),
{
    if outs.len() > 0 {
        joined_len(outs.drop_last());
    }
}

/// The first hops of `samples`, as many as `outs` has, succeed as in [`plays`], and the next one
/// fails with the error `e`.
pub open spec fn breaks_off<S: Sample, M: Model<S>, F: Fourier<S>>(
    fourier: &F,
    samples: Seq<S>,
    models: Seq<M>,
    streams: Seq<GtcrnStream<S, M::Cache>>,
    outs: Seq<[S; HOP]>,
    after: M,
    next: GtcrnStream<S, M::Cache>,
    e: M::Error,
) -> bool {
    &&& plays(fourier, samples, models, streams, outs)
    &&& outs.len() < frame_count(samples.len() as int)
    &&& plays_hop(
        fourier,
        samples,
        outs.len() as int,
        models.last(),
        streams.last(),
        after,
        next,
        Err(e),
    )
}

/// `enhanced` is what a fresh stream around the session `model` makes of `samples`: the hops that
/// it gives out for them and for a last hop of silence, from the second one on, cut to the length
/// of `samples`.
pub open spec fn enhances_to<S: Sample, M: Model<S>, F: Fourier<S>>(
    model: M,
    fourier: &F,
    samples: Seq<S>,
    enhanced: Seq<S>,
) -> bool {
    exists|models: Seq<M>, streams: Seq<GtcrnStream<S, M::Cache>>, outs: Seq<[S; HOP]>|
        {
            &&& #[trigger] plays(fourier, samples, models, streams, outs)
            &&& models[0] == model
            &&& outs.len() == frame_count(samples.len() as int)
            &&& enhanced == joined(outs).subrange(HOP as int, HOP + samples.len())
        }
}

/// A fresh stream around the session `model` fails with the error `e` on one of the hops of
/// `samples`, or on the hop of silence behind them.
pub open spec fn fails_with<S: Sample, M: Model<S>, F: Fourier<S>>(
    model: M,
    fourier: &F,
    samples: Seq<S>,
    e: M::Error,
) -> bool {
    exists|
        models: Seq<M>,
        streams: Seq<GtcrnStream<S, M::Cache>>,
        outs: Seq<[S; HOP]>,
        after: M,
        next: GtcrnStream<S, M::Cache>,
    |
        models[0] == model && #[trigger] breaks_off(
            fourier,
            samples,
            models,
            streams,
            outs,
            after,
            next,
            e,
        )
}

/// Puts a hop behind `out`.
fn append<S: Sample>(out: &mut Vec<S>, hop: &[S; HOP])
    ensures
        final(out)@ == old(out)@ + hop@,
{
    let mut i: usize = 0;
    while i < HOP
        invariant
            i <= HOP,
            out@ == old(out)@ + hop@.take(i as int),
        decreases HOP - i,
    {
        out.push(hop[i]);
        i += 1;
    }
    assert(hop@.take(HOP as int) == hop@);
}

/// Makes up for the delay of one hop: drops the first hop of `out`, and cuts the rest to `len`
/// samples or fills it up with zeros.
pub fn without_delay<S: Sample>(out: &[S], len: usize) -> (r: Vec<S>)
    ensures
        r@.len() == len,
        forall|i: int| 0 <= i < len && HOP + i < out@.len() ==> #[trigger] r@[i] == out@[HOP + i],
        forall|i: int|
            0 <= i < len && HOP + i >= out@.len() ==> sample::is_zero(#[trigger] r@[i]),
{
    let available: usize = out.len();
    let rest: usize = if HOP < available {
        available - HOP
    } else {
        0
    };
    let mut r: Vec<S> = Vec::new();
    let mut i: usize = 0;
    while i < len
        invariant
            i <= len,
            available == out@.len(),
            rest == (if HOP < available {
                available - HOP
            } else {
                0
            }),
            r@.len() == i,
            forall|j: int| 0 <= j < i && j < rest ==> #[trigger] r@[j] == out@[HOP + j],
            forall|j: int| rest <= j < i ==> sample::is_zero(#[trigger] r@[j]),
        decreases len - i,
    {
        if i < rest {
            r.push(out[HOP + i]);
        } else {
            r.push(S::zero());
        }
        i += 1;
    }
    r
}

/// Enhances a whole signal of one channel.
pub fn enhance<S: Sample, M: Model<S>, F: Fourier<S>>(
    samples: &[S],
    model: M,
    fourier: &F,
) -> (r: Result<Vec<S>, M::Error>)
    requires
        fourier::has_size(fourier, N_FFT as int),
        answers_in_full::<S, M>(),
    ensures
        r matches Ok(v) ==> v@.len() == samples@.len(),
        r matches Ok(v) ==> enhances_to(model, fourier, samples@, v@),
        r matches Err(e) ==> fails_with(model, fourier, samples@, e),
{
    let len: usize = samples.len();
    let mut stream: GtcrnStream<S, M::Cache> = GtcrnStream::new(&model);
    let mut session: M = model;
    let mut out: Vec<S> = Vec::new();
    let ghost mut models: Seq<M> = seq![session];
    let ghost mut streams: Seq<GtcrnStream<S, M::Cache>> = seq![stream];
    let ghost mut outs: Seq<[S; HOP]> = Seq::empty();
    let mut pos: usize = 0;
    while pos < len
        invariant
            len == samples@.len(),
            fourier::has_size(fourier, N_FFT as int),
            answers_in_full::<S, M>(),
            stream.wf(),
            plays(fourier, samples@, models, streams, outs),
            models[0] == model,
            models.last() == session,
            streams.last() == stream,
            out@ == joined(outs),
            pos == outs.len() * HOP || (pos == len && outs.len() * HOP > len),
            outs.len() > 0 ==> (outs.len() - 1) * HOP < len,
        decreases len - pos,
    {
        let hop: [S; HOP] = next_hop(samples, pos);
        let ghost before = stream;
        let ghost session_before = session;
        let (after, result): (M, Result<[S; HOP], M::Error>) = stream.process_frame(
            hop.as_slice(),
            session,
            fourier,
        );
        assert(plays_hop(
            fourier,
            samples@,
            outs.len() as int,
            session_before,
            before,
            after,
            stream,
            result,
        ));
        session = after;
        match result {
            Ok(hop_out) => {
                append(&mut out, &hop_out);
                proof {
                    let more = outs.push(hop_out);
                    assert(more.drop_last() == outs);
                    models = models.push(session);
                    streams = streams.push(stream);
                    outs = more;
                }
            },
            Err(e) => {
                assert(breaks_off(fourier, samples@, models, streams, outs, session, stream, e));
                return Err(e);
            },
        }
        if len - pos > HOP {
            pos += HOP;
        } else {
            pos = len;
        }
    }
    let hop: [S; HOP] = next_hop(samples, pos);
    let ghost before = stream;
    let (after, result): (M, Result<[S; HOP], M::Error>) = stream.process_frame(
        hop.as_slice(),
        session,
        fourier,
    );
    assert(hop_is(samples@, outs.len() * HOP, hop@));
    assert(plays_hop(
        fourier,
        samples@,
        outs.len() as int,
        models.last(),
        before,
        after,
        stream,
        result,
    ));
    match result {
        Ok(hop_out) => {
            append(&mut out, &hop_out);
            proof {
                let more = outs.push(hop_out);
                assert(more.drop_last() == outs);
                models = models.push(after);
                streams = streams.push(stream);
                outs = more;
                joined_len(outs);
            }
            let r: Vec<S> = without_delay(&out, len);
            assert(r@ == joined(outs).subrange(HOP as int, HOP + len));
            assert(plays(fourier, samples@, models, streams, outs));
            Ok(r)
        },
        Err(e) => {
            assert(breaks_off(fourier, samples@, models, streams, outs, after, stream, e));
            Err(e)
        },
    }
}

// What holds over several hops.

/// `ana` holds what `samples` holds before place `end`, with zeros before its start and after its
/// end.
pub open spec fn latest_are<S: Sample>(samples: Seq<S>, end: int, ana: Seq<S>) -> bool {
    &&& ana.len() == N_FFT
    &&& forall|i: int|
        0 <= i < N_FFT && 0 <= end - N_FFT + i < samples.len() ==> #[trigger] ana[i] == samples[end
            - N_FFT + i]
    &&& forall|i: int|
        0 <= i < N_FFT && !(0 <= end - N_FFT + i < samples.len()) ==> sample::is_zero(
            #[trigger] ana[i],
        )
}

/// After `k` hops a stream remembers exactly the latest samples, as many as a window spans.
pub proof fn latest_samples_are_kept<S: Sample, M: Model<S>, F: Fourier<S>>(
    fourier: &F,
    samples: Seq<S>,
    models: Seq<M>,
    streams: Seq<GtcrnStream<S, M::Cache>>,
    outs: Seq<[S; HOP]>,
    k: int,
)
    requires
        plays(fourier, samples, models, streams, outs),
        0 <= k <= outs.len(),
    ensures
        latest_are(samples, k * HOP, streams[k].ana_buf@),
        streams[k].stft == streams[0].stft,
    decreases k,
{
    if k > 0 {
        latest_samples_are_kept(fourier, samples, models, streams, outs, k - 1);
        let before = streams[k - 1];
        let next = streams[k - 1 + 1];
        let model = models[k - 1];
        let after = models[k - 1 + 1];
        let result = Ok::<[S; HOP], M::Error>(outs[k - 1]);
        assert(plays_hop(fourier, samples, k - 1, model, before, after, next, result));
        let hop = choose|hop: Seq<S>|
            {
                &&& hop_is(samples, (k - 1) * HOP, hop)
                &&& #[trigger] before.processes(model, fourier, hop, &next, after, result)
            };
        assert(next.ana_buf@ == state::shifted(before.ana_buf@, hop));
        assert forall|i: int| 0 <= i < N_FFT implies #[trigger] next.ana_buf@[i] == (if i < HOP {
            before.ana_buf@[i + HOP]
        } else {
            hop[i - HOP]
        }) by {}
    }
}

/// `frame` is what the session makes, with the caches of `stream`, of the signal `ana`.
pub open spec fn makes_frame<S: Sample, M: Model<S>, F: Fourier<S>>(
    model: M,
    fourier: &F,
    stream: GtcrnStream<S, M::Cache>,
    ana: Seq<S>,
    frame: Seq<S>,
) -> bool {
    exists|mix: Seq<S>, after: M, answer: Answer<S, M::Cache, M::Error>|
        {
            &&& mix_is(fourier, stream.stft.window@, ana, mix)
            &&& #[trigger] run_is::<S, M>(
                model,
                mix,
                stream.conv_cache,
                stream.tra_cache,
                stream.inter_cache,
                after,
                Ok(answer),
            )
            &&& answer.enhanced is Ok
            &&& enhanced_frame_is(fourier, stream.stft.window@, answer.enhanced->Ok_0@, frame)
        }
}

/// What goes out with a hop is the second half of the frame before it and the first half of its
/// own frame, added up: the place that both have in common lies one hop back.
pub proof fn output_joins_two_frames<S: Sample, M: Model<S>, F: Fourier<S>>(
    fourier: &F,
    m0: M,
    s0: GtcrnStream<S, M::Cache>,
    hop0: Seq<S>,
    out0: [S; HOP],
    m1: M,
    s1: GtcrnStream<S, M::Cache>,
    hop1: Seq<S>,
    out1: [S; HOP],
    m2: M,
    s2: GtcrnStream<S, M::Cache>,
)
    requires
        s0.processes(m0, fourier, hop0, &s1, m1, Ok(out0)),
        s1.processes(m1, fourier, hop1, &s2, m2, Ok(out1)),
    ensures
        exists|frame0: Seq<S>, frame1: Seq<S>|
            {
                &&& #[trigger] makes_frame(m0, fourier, s0, s1.ana_buf@, frame0)
                &&& #[trigger] makes_frame(m1, fourier, s1, s2.ana_buf@, frame1)
                &&& forall|i: int|
                    0 <= i < HOP ==> sample::adds(frame1[i], frame0[HOP + i], #[trigger] out1@[i])
            },
{
    let (mix0, answer0) = choose|
        mix: Seq<S>,
        answer: Result<Answer<S, M::Cache, M::Error>, M::Error>,
    | #[trigger]
        s0.runs_hop(m0, fourier, hop0, mix, answer, &s1, m1, Ok(out0));
    let (mix1, answer1) = choose|
        mix: Seq<S>,
        answer: Result<Answer<S, M::Cache, M::Error>, M::Error>,
    | #[trigger]
        s1.runs_hop(m1, fourier, hop1, mix, answer, &s2, m2, Ok(out1));
    let frame0 = choose|frame: Seq<S>|
        {
            &&& #[trigger] enhanced_frame_is(
                fourier,
                s0.stft.window@,
                answer0->Ok_0.enhanced->Ok_0@,
                frame,
            )
            &&& halves_overlap(frame, s0.ola@, out0@, s1.ola@)
        };
    let frame1 = choose|frame: Seq<S>|
        {
            &&& #[trigger] enhanced_frame_is(
                fourier,
                s1.stft.window@,
                answer1->Ok_0.enhanced->Ok_0@,
                frame,
            )
            &&& halves_overlap(frame, s1.ola@, out1@, s2.ola@)
        };
    assert(makes_frame(m0, fourier, s0, s1.ana_buf@, frame0));
    assert(makes_frame(m1, fourier, s1, s2.ana_buf@, frame1));
    assert(forall|i: int| 0 <= i < HOP ==> #[trigger] s1.ola@[i] == frame0[HOP + i]);
}

/// A session fails with the error `e`, or answers with a spectrum that cannot be read for that
/// reason.
pub open spec fn model_fails_with<S: Sample, M: Model<S>>(e: M::Error) -> bool {
    exists|
        model: M,
        mix: Seq<S>,
        conv: M::Cache,
        tra: M::Cache,
        inter: M::Cache,
        after: M,
        answer: Result<Answer<S, M::Cache, M::Error>, M::Error>,
    |
        {
            &&& #[trigger] run_is::<S, M>(model, mix, conv, tra, inter, after, answer)
            &&& match answer {
                Ok(a) => a.enhanced is Err && a.enhanced->Err_0 == e,
                Err(error) => error == e,
            }
        }
}

/// Nothing fails but the model: whatever error ends the enhancing of a signal, a run gave it.
pub proof fn only_the_model_fails<S: Sample, M: Model<S>, F: Fourier<S>>(
    model: M,
    fourier: &F,
    samples: Seq<S>,
    e: M::Error,
)
    requires
        fails_with(model, fourier, samples, e),
    ensures
        model_fails_with::<S, M>(e),
{
    let (models, streams, outs, after, next) = choose|
        models: Seq<M>,
        streams: Seq<GtcrnStream<S, M::Cache>>,
        outs: Seq<[S; HOP]>,
        after: M,
        next: GtcrnStream<S, M::Cache>,
    |
        models[0] == model && #[trigger] breaks_off(
            fourier,
            samples,
            models,
            streams,
            outs,
            after,
            next,
            e,
        );
    let stream = streams.last();
    let session = models.last();
    let hop = choose|hop: Seq<S>|
        {
            &&& hop_is(samples, outs.len() * HOP, hop)
            &&& #[trigger] stream.processes(session, fourier, hop, &next, after, Err(e))
        };
    let (mix, answer) = choose|
        mix: Seq<S>,
        answer: Result<Answer<S, M::Cache, M::Error>, M::Error>,
    | #[trigger]
        stream.runs_hop(session, fourier, hop, mix, answer, &next, after, Err(e));
    assert(run_is::<S, M>(
        session,
        mix,
        stream.conv_cache,
        stream.tra_cache,
        stream.inter_cache,
        after,
        answer,
    ));
}

/// The hops take a session and a fresh stream through their states, each in one run with the
/// spectrum and the answer given; a run that fails does not end it.
pub open spec fn runs_through<S: Sample, M: Model<S>, F: Fourier<S>>(
    fourier: &F,
    models: Seq<M>,
    streams: Seq<GtcrnStream<S, M::Cache>>,
    hops: Seq<Seq<S>>,
    mixes: Seq<Seq<S>>,
    answers: Seq<Result<Answer<S, M::Cache, M::Error>, M::Error>>,
    results: Seq<Result<[S; HOP], M::Error>>,
) -> bool {
    &&& models.len() == hops.len() + 1
    &&& streams.len() == hops.len() + 1
    &&& mixes.len() == hops.len()
    &&& answers.len() == hops.len()
    &&& results.len() == hops.len()
    &&& streams[0].is_fresh(&models[0])
    &&& forall|k: int|
        0 <= k < hops.len() ==> {
            &&& hops[k].len() == HOP
            &&& (#[trigger] streams[k]).runs_hop(
                models[k],
                fourier,
                hops[k],
                mixes[k],
                answers[k],
                &streams[k + 1],
                models[k + 1],
                results[k],
            )
        }
}

/// The last of the first `k` runs that was answered.
pub open spec fn last_answered<A, E>(answers: Seq<Result<A, E>>, k: int) -> Option<int>
    decreases k,
{
    if k <= 0 {
        None
    } else if answers[k - 1] is Ok {
        Some(k - 1)
    } else {
        last_answered(answers, k - 1)
    }
}

/// The caches are those of the last answer, or remember nothing if there was none.
pub open spec fn caches_carry_over<S: Sample, M: Model<S>>(
    model: M,
    answers: Seq<Result<Answer<S, M::Cache, M::Error>, M::Error>>,
    k: int,
    conv: M::Cache,
    tra: M::Cache,
    inter: M::Cache,
) -> bool {
    match last_answered(answers, k) {
        Some(j) => {
            &&& conv == answers[j]->Ok_0.conv
            &&& tra == answers[j]->Ok_0.tra
            &&& inter == answers[j]->Ok_0.inter
        },
        None => {
            &&& zero_cache_is::<S, M>(&model, seq![2usize, 1, 16, 16, 33], conv)
            &&& zero_cache_is::<S, M>(&model, seq![2usize, 3, 1, 1, 16], tra)
            &&& zero_cache_is::<S, M>(&model, seq![2usize, 1, 33, 16], inter)
        },
    }
}

/// What comes before hop `k`: the hop before it, or silence.
pub open spec fn hop_before<S: Sample>(hops: Seq<Seq<S>>, k: int, before: Seq<S>) -> bool {
    if k > 0 {
        before == hops[k - 1]
    } else {
        sample::silence(before, HOP as int)
    }
}

/// Whatever went before, the run for a hop is handed the spectrum of that hop and the one before
/// it, and the caches of the last run that was answered.
pub proof fn each_run_gets_the_last_two_hops<S: Sample, M: Model<S>, F: Fourier<S>>(
    fourier: &F,
    models: Seq<M>,
    streams: Seq<GtcrnStream<S, M::Cache>>,
    hops: Seq<Seq<S>>,
    mixes: Seq<Seq<S>>,
    answers: Seq<Result<Answer<S, M::Cache, M::Error>, M::Error>>,
    results: Seq<Result<[S; HOP], M::Error>>,
    k: int,
)
    requires
        runs_through(fourier, models, streams, hops, mixes, answers, results),
        0 <= k < hops.len(),
    ensures
        exists|before: Seq<S>|
            {
                &&& #[trigger] hop_before(hops, k, before)
                &&& mix_is(fourier, streams[0].stft.window@, before + hops[k], mixes[k])
            },
        exists|conv: M::Cache, tra: M::Cache, inter: M::Cache|
            {
                &&& caches_carry_over::<S, M>(models[0], answers, k, conv, tra, inter)
                &&& #[trigger] run_is::<S, M>(
                    models[k],
                    mixes[k],
                    conv,
                    tra,
                    inter,
                    models[k + 1],
                    answers[k],
                )
            },
{
    lemma_carried(fourier, models, streams, hops, mixes, answers, results, k);
    let s = streams[k];
    assert(s.runs_hop(
        models[k],
        fourier,
        hops[k],
        mixes[k],
        answers[k],
        &streams[k + 1],
        models[k + 1],
        results[k],
    ));
    let before = s.ana_buf@.skip(HOP as int);
    assert(hop_before(hops, k, before));
    assert(state::shifted(s.ana_buf@, hops[k]) =~= before + hops[k]);
}

proof fn lemma_carried<S: Sample, M: Model<S>, F: Fourier<S>>(
    fourier: &F,
    models: Seq<M>,
    streams: Seq<GtcrnStream<S, M::Cache>>,
    hops: Seq<Seq<S>>,
    mixes: Seq<Seq<S>>,
    answers: Seq<Result<Answer<S, M::Cache, M::Error>, M::Error>>,
    results: Seq<Result<[S; HOP], M::Error>>,
    k: int,
)
    requires
        runs_through(fourier, models, streams, hops, mixes, answers, results),
        0 <= k <= hops.len(),
    ensures
        streams[k].stft == streams[0].stft,
        caches_carry_over::<S, M>(
            models[0],
            answers,
            k,
            streams[k].conv_cache,
            streams[k].tra_cache,
            streams[k].inter_cache,
        ),
        hop_before(hops, k, streams[k].ana_buf@.skip(HOP as int)),
    decreases k,
{
    let half = streams[k].ana_buf@.skip(HOP as int);
    if k == 0 {
        assert forall|i: int| 0 <= i < HOP implies sample::is_zero(#[trigger] half[i]) by {
            assert(sample::is_zero(streams[0].ana_buf@[i + HOP]));
        }
    } else {
        lemma_carried(fourier, models, streams, hops, mixes, answers, results, k - 1);
        let s = streams[k - 1];
        assert(s.runs_hop(
            models[k - 1],
            fourier,
            hops[k - 1],
            mixes[k - 1],
            answers[k - 1],
            &streams[k - 1 + 1],
            models[k - 1 + 1],
            results[k - 1],
        ));
        assert(streams[k].ana_buf@ == state::shifted(s.ana_buf@, hops[k - 1]));
        assert(half =~= hops[k - 1]);
    }
}

} // verus!
