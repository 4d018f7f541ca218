//! Setting up a stream, resetting it, and computing what a model is fed with.
use vstd::prelude::*;

use crate::bands;
use crate::complex::Complex;
use crate::erb;
use crate::norm;
use crate::sample;
use crate::sample::{Sample, Wider};
use crate::state::DFState;

verus! {

// The window.

/// `r` is a value of `pi / 2`.
pub open spec fn quarter_turn_is<W: Sample>(r: W) -> bool {
    exists|half: W, pi: W|
        {
            &&& sample::is_decimal(5, 1, half)
            &&& sample::is_pi(pi)
            &&& #[trigger] sample::multiplies(half, pi, r)
        }
}

/// `r` is a value of `sin(pi / 2 * (i + 1 / 2) / n)`.
pub open spec fn half_arch_is<W: Sample>(i: usize, n: usize, r: W) -> bool {
    exists|turn: W, count: W, half: W, place: W, arc: W, len: W, angle: W|
        {
            &&& #[trigger] quarter_turn_is(turn)
            &&& #[trigger] sample::is_count(i, count)
            &&& sample::is_decimal(5, 1, half)
            &&& #[trigger] sample::adds(count, half, place)
            &&& #[trigger] sample::multiplies(turn, place, arc)
            &&& #[trigger] sample::is_count(n, len)
            &&& #[trigger] sample::divides(arc, len, angle)
            &&& call_ensures(W::sine, (angle,), r)
        }
}

/// `r` is place `i` of the Vorbis window over `2 n` samples: `sin(pi / 2 * a^2)` with
/// `a = sin(pi / 2 * (i + 1 / 2) / n)`, computed in the wider type.
pub open spec fn vorbis_is<S: Sample, W: Wider<S>>(i: usize, n: usize, r: S) -> bool {
    exists|a: W, turn: W, once: W, twice: W, arch: W|
        {
            &&& #[trigger] half_arch_is(i, n, a)
            &&& #[trigger] quarter_turn_is(turn)
            &&& #[trigger] sample::multiplies(turn, a, once)
            &&& #[trigger] sample::multiplies(once, a, twice)
            &&& #[trigger] call_ensures(W::sine, (twice,), arch)
            &&& call_ensures(W::narrowed, (arch,), r)
        }
}

/// A quarter of a full turn, in radians.
pub fn quarter_turn<W: Sample>() -> (r: W)
    ensures
        quarter_turn_is(r),
{
    W::decimal(5, 1).times(W::pi())
}

/// Place `i` of the Vorbis window over `2 n` samples.
pub fn vorbis<S: Sample, W: Wider<S>>(i: usize, n: usize) -> (r: S)
    ensures
        vorbis_is::<S, W>(i, n, r),
{
    let place: W = W::from_count(i).plus(W::decimal(5, 1));
    let a: W = quarter_turn::<W>().times(place).over(W::from_count(n)).sine();
    assert(half_arch_is(i, n, a));
    quarter_turn::<W>().times(a).times(a).sine().narrowed()
}

/// `r` is a value of `1 / (window_size^2 / (2 frame_size))`.
pub open spec fn wnorm_is<S: Sample>(window_size: usize, frame_size: usize, r: S) -> bool {
    exists|one: S, area: S, hops: S, ratio: S|
        {
            &&& #[trigger] sample::is_one(one)
            &&& #[trigger] sample::is_count((window_size * window_size) as usize, area)
            &&& #[trigger] sample::is_count((2 * frame_size) as usize, hops)
            &&& #[trigger] sample::divides(area, hops, ratio)
            &&& sample::divides(one, ratio, r)
        }
}

// Ramps.

/// `r` is a value of `first + i * step`.
pub open spec fn ramp_step_is<S: Sample>(first: S, step: S, i: usize, r: S) -> bool {
    exists|count: S, rise: S|
        {
            &&& #[trigger] sample::is_count(i, count)
            &&& #[trigger] sample::multiplies(count, step, rise)
            &&& sample::adds(first, rise, r)
        }
}

/// `r` holds `n` values that lead in equal steps from `first` to `last`.
pub open spec fn ramp_is<S: Sample>(first: S, last: S, n: usize, r: Seq<S>) -> bool {
    &&& r.len() == n
    &&& exists|span: S, count: S, step: S|
        {
            &&& #[trigger] sample::subtracts(last, first, span)
            &&& #[trigger] sample::is_count((n - 1) as usize, count)
            &&& #[trigger] sample::divides(span, count, step)
            &&& forall|i: int|
                0 <= i < n ==> ramp_step_is(first, step, i as usize, #[trigger] r[i])
        }
}

/// `n` values that lead in equal steps from `first` to `last`.
pub fn ramp<S: Sample>(first: S, last: S, n: usize) -> (r: Vec<S>)
    requires
        n > 0,
    ensures
        ramp_is(first, last, n, r@),
{
    let step: S = last.minus(first).over(S::from_count(n - 1));
    let mut r: Vec<S> = Vec::new();
    let mut i: usize = 0;
    while i < n
        invariant
            i <= n,
            r@.len() == i,
            forall|j: int| 0 <= j < i ==> ramp_step_is(first, step, j as usize, #[trigger] r@[j]),
        decreases n - i,
    {
        let v: S = first.plus(S::from_count(i).times(step));
        assert(ramp_step_is(first, step, i, v));
        r.push(v);
        i += 1;
    }
    r
}

/// `r` holds the initial averages of `n` band levels: from -60 down to -90 decibels.
pub open spec fn mean_norm_init_is<S: Sample>(n: usize, r: Seq<S>) -> bool {
    exists|first: S, last: S|
        {
            &&& sample::is_decimal((-60i64) as i64, 0, first)
            &&& sample::is_decimal((-90i64) as i64, 0, last)
            &&& #[trigger] ramp_is(first, last, n, r)
        }
}

/// `r` holds the initial averages of `n` bin magnitudes: from 0.001 down to 0.0001.
pub open spec fn unit_norm_init_is<S: Sample>(n: usize, r: Seq<S>) -> bool {
    exists|first: S, last: S|
        {
            &&& sample::is_decimal(1, 3, first)
            &&& sample::is_decimal(1, 4, last)
            &&& #[trigger] ramp_is(first, last, n, r)
        }
}

// Features.

/// `r` is a value of `10 log10(v + 10^-10)`: the power `v` in decibels.
pub open spec fn decibels_is<S: Sample>(v: S, r: S) -> bool {
    exists|floor: S, raised: S, log: S, ten: S|
        {
            &&& #[trigger] sample::is_decimal(1, 10, floor)
            &&& #[trigger] sample::adds(v, floor, raised)
            &&& #[trigger] call_ensures(S::log_ten, (raised,), log)
            &&& #[trigger] sample::is_decimal(10, 0, ten)
            &&& sample::multiplies(log, ten, r)
        }
}

/// One band of [`DFState::feat_erb`]: the mean power of the `n` bins from `lo` on, in decibels,
/// is held against the running average `s`, which moves on to `s2`.
pub open spec fn erb_feature_is<S: Sample>(
    input: Seq<Complex<S>>,
    lo: int,
    n: usize,
    s: S,
    alpha: S,
    s2: S,
    out: S,
) -> bool {
    exists|power: S, level: S|
        {
            &&& #[trigger] bands::band_corr_is(input, input, lo, n, power)
            &&& #[trigger] decibels_is(power, level)
            &&& norm::mean_norm_erb_is(level, s, alpha, s2, out)
        }
}

impl<S: Sample> DFState<S> {
    /// The state that a stream starts in: silence behind it, and no running averages yet.
    pub open spec fn is_fresh<W: Wider<S>>(
        &self,
        sr: usize,
        fft_size: usize,
        hop_size: usize,
    ) -> bool {
        &&& self.sr == sr
        &&& self.frame_size == hop_size
        &&& self.window_size == fft_size
        &&& self.freq_size == erb::bin_count(fft_size)
        &&& self.window@.len() == fft_size
        &&& forall|i: int|
            0 <= i < fft_size ==> vorbis_is::<S, W>(
                i as usize,
                (fft_size / 2) as usize,
                #[trigger] self.window@[i],
            )
        &&& wnorm_is(fft_size, hop_size, self.wnorm)
        &&& self.is_silent()
        &&& self.mean_norm_state@.len() == 0
        &&& self.unit_norm_state@.len() == 0
    }

    /// Neither the samples before the next hop nor the frames before it leave a trace.
    pub open spec fn is_silent(&self) -> bool {
        &&& sample::silence(self.analysis_mem@, self.window_size - self.frame_size)
        &&& sample::silence(self.synthesis_mem@, self.window_size - self.frame_size)
    }

    /// Sets up a stream at the sample rate `sr` with windows of `fft_size` samples, hops of
    /// `hop_size` samples and the given band layout.
    pub fn with_bands<W: Wider<S>>(
        sr: usize,
        fft_size: usize,
        hop_size: usize,
        erb: Vec<usize>,
    ) -> (r: Self)
        requires
            hop_size * 2 <= fft_size,
            fft_size * fft_size <= usize::MAX,
            erb@.len() > 0,
            erb::band_start(erb@, erb@.len() as int) == erb::bin_count(fft_size),
        ensures
            r.wf(),
            r.is_fresh::<W>(sr, fft_size, hop_size),
            r.erb == erb,
    {
        let half: usize = fft_size / 2;
        let mut window: Vec<S> = Vec::new();
        let mut i: usize = 0;
        while i < fft_size
            invariant
                i <= fft_size,
                half == fft_size / 2,
                window@.len() == i,
                forall|j: int|
                    0 <= j < i ==> vorbis_is::<S, W>(j as usize, half, #[trigger] window@[j]),
            decreases fft_size - i,
        {
            window.push(vorbis::<S, W>(i, half));
            i += 1;
        }
        let area: S = S::from_count(fft_size * fft_size);
        let wnorm: S = S::one().over(area.over(S::from_count(2 * hop_size)));
        DFState {
            sr,
            frame_size: hop_size,
            window_size: fft_size,
            freq_size: half + 1,
            window,
            wnorm,
            erb,
            analysis_mem: sample::zeros(fft_size - hop_size),
            synthesis_mem: sample::zeros(fft_size - hop_size),
            mean_norm_state: Vec::new(),
            unit_norm_state: Vec::new(),
        }
    }

    /// Sets up a stream at the sample rate `sr` with windows of `fft_size` samples, hops of
    /// `hop_size` samples and `nb_bands` ERB bands of at least `min_nb_freqs` bins. None where
    /// the bands have no layout.
    pub fn new<W: Wider<S>>(
        sr: usize,
        fft_size: usize,
        hop_size: usize,
        nb_bands: usize,
        min_nb_freqs: usize,
    ) -> (r: Option<Self>)
        requires
            hop_size * 2 <= fft_size,
            fft_size * fft_size <= usize::MAX,
        ensures
            r matches Some(state) ==> state.wf() && state.is_fresh::<W>(sr, fft_size, hop_size),
            exists|erb: Option<Vec<usize>>|
                {
                    &&& #[trigger] erb::erb_fb_is::<S>(sr, fft_size, nb_bands, min_nb_freqs, erb)
                    &&& r is Some <==> erb is Some
                    &&& r matches Some(state) ==> erb == Some(state.erb)
                },
    {
        let erb: Option<Vec<usize>> = erb::erb_fb::<S>(sr, fft_size, nb_bands, min_nb_freqs);
        let ghost layout = erb;
        assert(erb::erb_fb_is::<S>(sr, fft_size, nb_bands, min_nb_freqs, layout));
        match erb {
            Some(widths) => {
                if widths.len() == 0 {
                    assert(erb::band_start(widths@, 0) == 0);
                }
                Some(Self::with_bands::<W>(sr, fft_size, hop_size, widths))
            },
            None => None,
        }
    }

    /// The stream that the models are made for: 48 kHz, windows of 20 ms, hops of 10 ms and 32
    /// bands of at least two bins.
    pub fn with_defaults<W: Wider<S>>() -> (r: Option<Self>)
        ensures
            r matches Some(state) ==> state.wf() && state.is_fresh::<W>(48000, 960, 480),
            exists|erb: Option<Vec<usize>>|
                {
                    &&& #[trigger] erb::erb_fb_is::<S>(48000, 960, 32, 2, erb)
                    &&& r is Some <==> erb is Some
                    &&& r matches Some(state) ==> erb == Some(state.erb)
                },
    {
        Self::new::<W>(48000, 960, 480, 32, 2)
    }

    /// Forgets the signal so far; the running averages stay.
    pub fn reset(&mut self)
        ensures
            sample::silence(final(self).analysis_mem@, old(self).analysis_mem@.len() as int),
            sample::silence(final(self).synthesis_mem@, old(self).synthesis_mem@.len() as int),
            old(self).sizes_fit() ==> final(self).sizes_fit() && final(self).is_silent(),
            final(self).same_setup(old(self)),
            final(self).mean_norm_state == old(self).mean_norm_state,
            final(self).unit_norm_state == old(self).unit_norm_state,
    {
        self.analysis_mem = sample::zeros(self.analysis_mem.len());
        self.synthesis_mem = sample::zeros(self.synthesis_mem.len());
    }

    /// Starts the running averages of the band levels and of the magnitudes of the lowest
    /// `nb_df_freqs` bins.
    pub fn init_norm_states(&mut self, nb_df_freqs: usize)
        requires
            old(self).erb@.len() > 0,
            nb_df_freqs > 0,
        ensures
            mean_norm_init_is(old(self).erb.len(), final(self).mean_norm_state@),
            unit_norm_init_is(nb_df_freqs, final(self).unit_norm_state@),
            final(self).same_setup(old(self)),
            final(self).analysis_mem == old(self).analysis_mem,
            final(self).synthesis_mem == old(self).synthesis_mem,
    {
        self.init_mean_norm_state();
        self.init_unit_norm_state(nb_df_freqs);
    }

    /// Starts the running averages of the band levels.
    pub fn init_mean_norm_state(&mut self)
        requires
            old(self).erb@.len() > 0,
        ensures
            mean_norm_init_is(old(self).erb.len(), final(self).mean_norm_state@),
            final(self).same_setup(old(self)),
            final(self).analysis_mem == old(self).analysis_mem,
            final(self).synthesis_mem == old(self).synthesis_mem,
            final(self).unit_norm_state == old(self).unit_norm_state,
    {
        self.mean_norm_state = ramp(S::decimal(-60, 0), S::decimal(-90, 0), self.erb.len());
    }

    /// Starts the running averages of the magnitudes of `nb_freqs` bins.
    pub fn init_unit_norm_state(&mut self, nb_freqs: usize)
        requires
            nb_freqs > 0,
        ensures
            unit_norm_init_is(nb_freqs, final(self).unit_norm_state@),
            final(self).same_setup(old(self)),
            final(self).analysis_mem == old(self).analysis_mem,
            final(self).synthesis_mem == old(self).synthesis_mem,
            final(self).mean_norm_state == old(self).mean_norm_state,
    {
        self.unit_norm_state = ramp(S::decimal(1, 3), S::decimal(1, 4), nb_freqs);
    }

    /// Writes to `output` the level of each band of the spectrum `input`, in decibels, against
    /// the running average of that level, which moves on.
    pub fn feat_erb(&mut self, input: &[Complex<S>], alpha: S, output: &mut [S])
        requires
            erb::band_start(old(self).erb@, old(self).erb@.len() as int) <= input@.len(),
            old(output)@.len() == old(self).erb@.len(),
            old(output)@.len() == old(self).mean_norm_state@.len(),
        ensures
            final(output)@.len() == old(output)@.len(),
            final(self).mean_norm_state@.len() == old(self).mean_norm_state@.len(),
            forall|b: int|
                0 <= b < old(self).erb@.len() ==> erb_feature_is(
                    input@,
                    erb::band_start(old(self).erb@, b),
                    old(self).erb@[b],
                    old(self).mean_norm_state@[b],
                    alpha,
                    #[trigger] final(self).mean_norm_state@[b],
                    final(output)@[b],
                ),
            final(self).same_setup(old(self)),
            final(self).analysis_mem == old(self).analysis_mem,
            final(self).synthesis_mem == old(self).synthesis_mem,
            final(self).unit_norm_state == old(self).unit_norm_state,
    {
        bands::compute_band_corr(output, input, input, &self.erb);
        let ghost power = output@;
        let n: usize = output.len();
        let mut i: usize = 0;
        while i < n
            invariant
                i <= n,
                n == output@.len(),
                n == power.len(),
                forall|j: int| 0 <= j < i ==> decibels_is(power[j], #[trigger] output@[j]),
                forall|j: int| i <= j < n ==> #[trigger] output@[j] == power[j],
            decreases n - i,
        {
            let level: S = output[i].plus(S::decimal(1, 10)).log_ten().times(S::decimal(10, 0));
            assert(decibels_is(power[i as int], level));
            output[i] = level;
            i += 1;
        }
        let ghost level = output@;
        norm::band_mean_norm_erb(output, &mut self.mean_norm_state, alpha);
        assert forall|b: int| 0 <= b < n implies erb_feature_is(
            input@,
            erb::band_start(old(self).erb@, b),
            old(self).erb@[b],
            old(self).mean_norm_state@[b],
            alpha,
            #[trigger] self.mean_norm_state@[b],
            output@[b],
        ) by {
            assert(bands::band_corr_is(
                input@,
                input@,
                erb::band_start(old(self).erb@, b),
                old(self).erb@[b],
                power[b],
            ));
            assert(decibels_is(power[b], level[b]));
        }
    }

    /// Writes to `output` the bins of `input`, each divided by the square root of the running
    /// average of its magnitude, which moves on.
    pub fn feat_cplx(&mut self, input: &[Complex<S>], alpha: S, output: &mut [Complex<S>])
        requires
            old(output)@.len() == input@.len(),
            old(self).unit_norm_state@.len() == input@.len(),
        ensures
            final(output)@.len() == input@.len(),
            final(self).unit_norm_state@.len() == input@.len(),
            forall|i: int|
                0 <= i < input@.len() ==> norm::unit_norm_is(
                    input@[i],
                    old(self).unit_norm_state@[i],
                    alpha,
                    #[trigger] final(self).unit_norm_state@[i],
                    final(output)@[i],
                ),
            final(self).same_setup(old(self)),
            final(self).analysis_mem == old(self).analysis_mem,
            final(self).synthesis_mem == old(self).synthesis_mem,
            final(self).mean_norm_state == old(self).mean_norm_state,
    {
        let n: usize = input.len();
        let mut i: usize = 0;
        while i < n
            invariant
                i <= n,
                n == input@.len(),
                n == output@.len(),
                forall|j: int| 0 <= j < i ==> #[trigger] output@[j] == input@[j],
            decreases n - i,
        {
            output[i] = input[i];
            i += 1;
        }
        norm::band_unit_norm(output, &mut self.unit_norm_state, alpha)
    }

    /// [`Self::feat_cplx`] with a transposed result: all real parts first, then all imaginary
    /// parts.
    pub fn feat_cplx_t(&mut self, input: &[Complex<S>], alpha: S, output: &mut [S])
        requires
            old(output)@.len() / 2 == input@.len(),
            old(self).unit_norm_state@.len() == input@.len(),
        ensures
            final(output)@.len() == old(output)@.len(),
            final(self).unit_norm_state@.len() == input@.len(),
            forall|i: int|
                0 <= i < input@.len() ==> norm::unit_norm_is(
                    input@[i],
                    old(self).unit_norm_state@[i],
                    alpha,
                    #[trigger] final(self).unit_norm_state@[i],
                    norm::transposed_bin(final(output)@, input@.len() as int, i),
                ),
            forall|i: int|
                2 * input@.len() <= i < old(output)@.len() ==> final(output)@[i] == old(
                    output,
                )@[i],
            final(self).same_setup(old(self)),
            final(self).analysis_mem == old(self).analysis_mem,
            final(self).synthesis_mem == old(self).synthesis_mem,
            final(self).mean_norm_state == old(self).mean_norm_state,
    {
        norm::band_unit_norm_t(input, &mut self.unit_norm_state, alpha, output)
    }

    /// Applies to every bin of `output` the gain of its band.
    pub fn apply_mask(&self, output: &mut [Complex<S>], gains: &[S])
        requires
            erb::band_start(self.erb@, bands::common_len(self.erb@.len(), gains@.len())) <= old(
                output,
            )@.len(),
        ensures
            bands::banded(
                old(output)@,
                gains@,
                self.erb@,
                bands::common_len(self.erb@.len(), gains@.len()),
                final(output)@,
                |z: Complex<S>, gain: S, r: Complex<S>|
                    crate::complex::complex_scales(z, gain, r),
            ),
    {
        bands::apply_band_gain(output, gains, &self.erb)
    }
}

} // verus!
