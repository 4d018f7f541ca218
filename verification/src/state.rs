//! The streaming analysis and synthesis of a signal in overlapping frames.
//!
//! A hop of `frame_size` samples comes in at a time. The analysis looks at the last
//! `window_size` samples through a window; the synthesis adds up the overlapping frames that
//! come back.
use vstd::prelude::*;

use crate::complex;
use crate::complex::Complex;
use crate::erb;
use crate::fourier;
use crate::fourier::Fourier;
use crate::sample;
use crate::sample::{Sample, Scalable};

verus! {

/// The state of one audio stream.
#[derive(Clone)]
pub struct DFState<S> {
    /// The sample rate in hertz.
    pub sr: usize,
    /// The number of samples that come in at a time.
    pub frame_size: usize,
    /// The number of samples that the window spans.
    pub window_size: usize,
    /// The number of bins of a spectrum.
    pub freq_size: usize,
    /// The window, used for the analysis and for the synthesis.
    pub window: Vec<S>,
    /// The factor that the analysis scales spectra by.
    pub wnorm: S,
    /// The widths of the ERB bands, in bins.
    pub erb: Vec<usize>,
    /// The samples that the next window spans besides the next hop.
    pub analysis_mem: Vec<S>,
    /// What earlier frames contribute to the output that is still to come.
    pub synthesis_mem: Vec<S>,
    /// The running averages of the band levels.
    pub mean_norm_state: Vec<S>,
    /// The running averages of the bin magnitudes.
    pub unit_norm_state: Vec<S>,
}

impl<S: Sample> DFState<S> {
    /// The sizes fit together: at least two hops to a window, and buffers as long as what a window
    /// spans besides a hop.
    pub open spec fn sizes_fit(&self) -> bool {
        &&& self.frame_size * 2 <= self.window_size
        &&& self.freq_size == self.window_size as int / 2 + 1
        &&& self.window@.len() == self.window_size
        &&& self.analysis_mem@.len() == self.window_size - self.frame_size
        &&& self.synthesis_mem@.len() == self.window_size - self.frame_size
    }

    /// There are bands, and they cover the spectrum exactly.
    pub open spec fn bands_fit(&self) -> bool {
        &&& self.erb@.len() > 0
        &&& erb::band_start(self.erb@, self.erb@.len() as int) == self.freq_size
    }

    /// The sizes fit together, and so do the bands.
    pub open spec fn wf(&self) -> bool {
        self.sizes_fit() && self.bands_fit()
    }

    /// Everything that is fixed when the stream is set up is the same in both states.
    pub open spec fn same_setup(&self, other: &Self) -> bool {
        &&& self.sr == other.sr
        &&& self.frame_size == other.frame_size
        &&& self.window_size == other.window_size
        &&& self.freq_size == other.freq_size
        &&& self.window@ == other.window@
        &&& self.wnorm == other.wnorm
        &&& self.erb@ == other.erb@
    }
}

// Analysis.

/// What is remembered of a signal once the hop `input` has come in: the oldest samples make room.
pub open spec fn shifted<S>(mem: Seq<S>, input: Seq<S>) -> Seq<S> {
    (mem + input).skip(input.len() as int)
}

/// `r` is the signal `xs` seen through `window`: each sample times the window's value there.
pub open spec fn windowed_is<S: Sample>(xs: Seq<S>, window: Seq<S>, r: Seq<S>) -> bool {
    &&& r.len() == window.len()
    &&& forall|i: int|
        0 <= i < window.len() ==> sample::multiplies(xs[i], window[i], #[trigger] r[i])
}

/// `r` is the spectrum `zs` with every bin multiplied by `k`.
pub open spec fn spectrum_scales<S: Sample>(
    zs: Seq<Complex<S>>,
    k: S,
    r: Seq<Complex<S>>,
) -> bool {
    &&& r.len() == zs.len()
    &&& forall|i: int| 0 <= i < zs.len() ==> complex::complex_scales(zs[i], k, #[trigger] r[i])
}

/// `output` is the scaled spectrum of the windowed frame that the remembered samples `mem` and
/// the hop `input` make up.
pub open spec fn analysis_is<S: Sample, F: Fourier<S>>(
    fourier: &F,
    mem: Seq<S>,
    input: Seq<S>,
    window: Seq<S>,
    wnorm: S,
    output: Seq<Complex<S>>,
) -> bool {
    exists|frame: Seq<S>, spectrum: Seq<Complex<S>>|
        {
            &&& windowed_is(mem + input, window, frame)
            &&& #[trigger] fourier::forward_is(fourier, frame, spectrum)
            &&& spectrum_scales(spectrum, wnorm, output)
        }
}

// Synthesis.

/// From the windowed frame `x` and the contributions `mem` of earlier frames, the next hop `out`
/// of the signal and the contributions `mem2` to what follows it. Places that no earlier frame
/// reaches hold the new frame alone.
pub open spec fn overlap_add_is<S: Sample>(
    x: Seq<S>,
    mem: Seq<S>,
    out: Seq<S>,
    mem2: Seq<S>,
) -> bool {
    let hop = out.len() as int;
    &&& mem2.len() == mem.len()
    &&& forall|i: int| 0 <= i < hop ==> sample::adds(x[i], mem[i], #[trigger] out[i])
    &&& forall|i: int|
        0 <= i < mem.len() - hop ==> sample::adds(mem[hop + i], x[hop + i], #[trigger] mem2[i])
    &&& forall|i: int| mem.len() - hop <= i < mem.len() ==> #[trigger] mem2[i] == x[hop + i]
}

/// From the frame `x` that a spectrum was turned back into and the contributions `mem` of earlier
/// frames, the next hop `out` and the contributions `mem2` to what follows.
pub open spec fn synthesis_is<S: Sample>(
    x: Seq<S>,
    window: Seq<S>,
    mem: Seq<S>,
    out: Seq<S>,
    mem2: Seq<S>,
) -> bool {
    exists|xw: Seq<S>| #[trigger] windowed_is(x, window, xw) && overlap_add_is(xw, mem, out, mem2)
}

/// The bins `input` are turned back into a frame, which gives out the hop `out` and takes the
/// contributions of earlier frames from `mem` to `mem2`.
pub open spec fn bins_become<S: Sample, F: Fourier<S>>(
    fourier: &F,
    input: Seq<Complex<S>>,
    window: Seq<S>,
    mem: Seq<S>,
    out: Seq<S>,
    mem2: Seq<S>,
) -> bool {
    exists|x: Seq<S>|
        #[trigger] fourier::inverse_is(fourier, input, x) && synthesis_is(x, window, mem, out, mem2)
}

impl<S: Sample> DFState<S> {
    /// The hop `input` is analysed as `output`, which takes the stream to the state `next`.
    pub open spec fn analyses<F: Fourier<S>>(
        &self,
        fourier: &F,
        input: Seq<S>,
        output: Seq<Complex<S>>,
        next: &Self,
    ) -> bool {
        &&& output.len() == self.freq_size
        &&& analysis_is(
            fourier,
            self.analysis_mem@,
            input,
            self.window@,
            self.wnorm,
            output,
        )
        &&& next.same_setup(self)
        &&& next.analysis_mem@ == shifted(self.analysis_mem@, input)
        &&& next.synthesis_mem == self.synthesis_mem
        &&& next.mean_norm_state == self.mean_norm_state
        &&& next.unit_norm_state == self.unit_norm_state
    }

    /// The bins `input` are synthesized as `output`, which takes the stream to the state `next`.
    pub open spec fn synthesizes<F: Fourier<S>>(
        &self,
        fourier: &F,
        input: Seq<Complex<S>>,
        output: Seq<S>,
        next: &Self,
    ) -> bool {
        &&& output.len() == self.frame_size
        &&& bins_become(
            fourier,
            input,
            self.window@,
            self.synthesis_mem@,
            output,
            next.synthesis_mem@,
        )
        &&& next.same_setup(self)
        &&& next.analysis_mem == self.analysis_mem
        &&& next.mean_norm_state == self.mean_norm_state
        &&& next.unit_norm_state == self.unit_norm_state
    }

    /// The hop `input` is analysed, and what comes of it synthesized as `output`, which takes the
    /// stream to the state `next`.
    pub open spec fn processes<F: Fourier<S>>(
        &self,
        fourier: &F,
        input: Seq<S>,
        output: Seq<S>,
        next: &Self,
    ) -> bool {
        exists|between: Self, spectrum: Seq<Complex<S>>|
            {
                &&& #[trigger] self.analyses(fourier, input, spectrum, &between)
                &&& between.synthesizes(fourier, spectrum, output, next)
            }
    }

    /// Takes in a hop of samples: returns the windowed frame that ends with it, and remembers
    /// the samples that later frames span too.
    pub fn windowed_frame(&mut self, input: &[S]) -> (frame: Vec<S>)
        requires
            old(self).sizes_fit(),
            input@.len() == old(self).frame_size,
        ensures
            windowed_is(old(self).analysis_mem@ + input@, old(self).window@, frame@),
            final(self).analysis_mem@ == shifted(old(self).analysis_mem@, input@),
            final(self).sizes_fit(),
            final(self).same_setup(old(self)),
            final(self).synthesis_mem == old(self).synthesis_mem,
            final(self).mean_norm_state == old(self).mean_norm_state,
            final(self).unit_norm_state == old(self).unit_norm_state,
    {
        let hop: usize = self.frame_size;
        let first: usize = self.window_size - hop;
        let ghost signal = self.analysis_mem@ + input@;
        let mut frame: Vec<S> = Vec::new();
        let mut i: usize = 0;
        // The first part of the window lies on earlier samples.
        while i < first
            invariant
                i <= first,
                old(self).sizes_fit(),
                *self == *old(self),
                first == self.window_size - self.frame_size,
                signal == self.analysis_mem@ + input@,
                frame@.len() == i,
                forall|j: int|
                    0 <= j < i ==> sample::multiplies(
                        signal[j],
                        self.window@[j],
                        #[trigger] frame@[j],
                    ),
            decreases first - i,
        {
            frame.push(self.analysis_mem[i].times(self.window[i]));
            i += 1;
        }
        // The second part lies on the new hop.
        let mut j: usize = 0;
        while j < hop
            invariant
                j <= hop,
                old(self).sizes_fit(),
                *self == *old(self),
                hop == self.frame_size,
                hop == input@.len(),
                first == self.window_size - self.frame_size,
                signal == self.analysis_mem@ + input@,
                frame@.len() == first + j,
                forall|k: int|
                    0 <= k < first + j ==> sample::multiplies(
                        signal[k],
                        self.window@[k],
                        #[trigger] frame@[k],
                    ),
            decreases hop - j,
        {
            frame.push(input[j].times(self.window[first + j]));
            j += 1;
        }
        self.analysis_mem = shift(&self.analysis_mem, input);
        frame
    }

    /// Takes in the frame that a spectrum was turned back into: adds it, windowed, to what
    /// earlier frames contribute, and writes the next hop of the signal to `output`.
    pub fn overlap_add(&mut self, x: Vec<S>, output: &mut [S])
        requires
            old(self).sizes_fit(),
            x@.len() == old(self).window_size,
            old(output)@.len() == old(self).frame_size,
        ensures
            final(output)@.len() == old(output)@.len(),
            synthesis_is(
                x@,
                old(self).window@,
                old(self).synthesis_mem@,
                final(output)@,
                final(self).synthesis_mem@,
            ),
            final(self).sizes_fit(),
            final(self).same_setup(old(self)),
            final(self).analysis_mem == old(self).analysis_mem,
            final(self).mean_norm_state == old(self).mean_norm_state,
            final(self).unit_norm_state == old(self).unit_norm_state,
    {
        let hop: usize = self.frame_size;
        let len: usize = self.synthesis_mem.len();
        let split: usize = len - hop;
        let mut xw: Vec<S> = x;
        apply_window_in_place(&mut xw, &self.window);
        let mut i: usize = 0;
        while i < hop
            invariant
                i <= hop,
                *self == *old(self),
                old(self).sizes_fit(),
                hop == self.frame_size,
                hop == output@.len(),
                len == self.synthesis_mem@.len(),
                xw@.len() == self.window_size,
                forall|k: int|
                    0 <= k < i ==> sample::adds(
                        xw@[k],
                        self.synthesis_mem@[k],
                        #[trigger] output@[k],
                    ),
            decreases hop - i,
        {
            output[i] = xw[i].plus(self.synthesis_mem[i]);
            i += 1;
        }
        let mut mem: Vec<S> = Vec::new();
        let mut k: usize = 0;
        while k < len
            invariant
                k <= len,
                *self == *old(self),
                old(self).sizes_fit(),
                hop == self.frame_size,
                len == self.synthesis_mem@.len(),
                split == len - hop,
                xw@.len() == self.window_size,
                mem@.len() == k,
                forall|j: int|
                    0 <= j < k && j < split ==> sample::adds(
                        self.synthesis_mem@[hop + j],
                        xw@[hop + j],
                        #[trigger] mem@[j],
                    ),
                forall|j: int| split <= j < k ==> #[trigger] mem@[j] == xw@[hop + j],
            decreases len - k,
        {
            if k < split {
                // Earlier frames reach here too.
                mem.push(self.synthesis_mem[hop + k].plus(xw[hop + k]));
            } else {
                mem.push(xw[hop + k]);
            }
            k += 1;
        }
        self.synthesis_mem = mem;
        assert(overlap_add_is(xw@, old(self).synthesis_mem@, output@, self.synthesis_mem@));
    }

    /// Turns the hop `input`, with the samples before it, into the bins of `output`.
    pub fn analysis<F: Fourier<S>>(
        &mut self,
        input: &[S],
        output: &mut [Complex<S>],
        fourier: &F,
    )
        requires
            old(self).sizes_fit(),
            input@.len() == old(self).frame_size,
            old(output)@.len() == old(self).freq_size,
            fourier::has_size(fourier, old(self).window_size as int),
        ensures
            final(output)@.len() == old(output)@.len(),
            old(self).analyses(fourier, input@, final(output)@, final(self)),
            final(self).sizes_fit(),
    {
        frame_analysis(input, output, self, fourier)
    }

    /// Turns the bins of `input` into the next hop `output` of the signal.
    pub fn synthesis<F: Fourier<S>>(
        &mut self,
        input: &[Complex<S>],
        output: &mut [S],
        fourier: &F,
    )
        requires
            old(self).sizes_fit(),
            input@.len() == old(self).freq_size,
            old(output)@.len() == old(self).frame_size,
            fourier::has_size(fourier, old(self).window_size as int),
        ensures
            final(output)@.len() == old(output)@.len(),
            old(self).synthesizes(fourier, input@, final(output)@, final(self)),
            final(self).sizes_fit(),
    {
        frame_synthesis(input, output, self, fourier)
    }

    /// Sends the hop `input` through the analysis and straight on through the synthesis.
    pub fn process_frame<F: Fourier<S>>(&mut self, input: &[S], output: &mut [S], fourier: &F)
        requires
            old(self).sizes_fit(),
            input@.len() == old(self).frame_size,
            old(output)@.len() == old(self).frame_size,
            fourier::has_size(fourier, old(self).window_size as int),
        ensures
            final(output)@.len() == old(output)@.len(),
            old(self).processes(fourier, input@, final(output)@, final(self)),
            final(self).sizes_fit(),
    {
        let mut freq_mem: Vec<Complex<S>> = Vec::new();
        let mut i: usize = 0;
        while i < self.freq_size
            invariant
                i <= self.freq_size,
                *self == *old(self),
                freq_mem@.len() == i,
            decreases self.freq_size - i,
        {
            freq_mem.push(Complex { re: S::zero(), im: S::zero() });
            i += 1;
        }
        frame_analysis(input, &mut freq_mem, self, fourier);
        assert(old(self).analyses(fourier, input@, freq_mem@, self));
        frame_synthesis(&freq_mem, output, self, fourier);
    }
}

/// What is remembered once a hop has come in.
pub fn shift<S: Sample>(mem: &[S], input: &[S]) -> (r: Vec<S>)
    requires
        input@.len() <= mem@.len(),
    ensures
        r@ == shifted(mem@, input@),
{
    let n: usize = mem.len();
    let hop: usize = input.len();
    let mut r: Vec<S> = Vec::new();
    let mut i: usize = hop;
    while i < n
        invariant
            hop <= i <= n,
            n == mem@.len(),
            hop == input@.len(),
            r@ == mem@.subrange(hop as int, i as int),
        decreases n - i,
    {
        r.push(mem[i]);
        i += 1;
    }
    let mut j: usize = 0;
    while j < hop
        invariant
            j <= hop <= n,
            n == mem@.len(),
            hop == input@.len(),
            r@ == mem@.skip(hop as int) + input@.take(j as int),
        decreases hop - j,
    {
        r.push(input[j]);
        j += 1;
    }
    assert(r@ == shifted(mem@, input@));
    r
}

/// The signal `xs` seen through `window`: each sample times the window's value there, and zero
/// where the window reaches beyond the signal.
pub fn apply_window<S: Sample>(xs: &[S], window: &[S]) -> (r: Vec<S>)
    ensures
        r@.len() == window@.len(),
        forall|i: int|
            0 <= i < window@.len() && i < xs@.len() ==> sample::multiplies(
                xs@[i],
                window@[i],
                #[trigger] r@[i],
            ),
        forall|i: int| xs@.len() <= i < window@.len() ==> sample::is_zero(#[trigger] r@[i]),
{
    let mut r: Vec<S> = Vec::new();
    let mut i: usize = 0;
    while i < window.len()
        invariant
            i <= window@.len(),
            r@.len() == i,
            forall|j: int|
                0 <= j < i && j < xs@.len() ==> sample::multiplies(
                    xs@[j],
                    window@[j],
                    #[trigger] r@[j],
                ),
            forall|j: int| xs@.len() <= j < i ==> sample::is_zero(#[trigger] r@[j]),
        decreases window@.len() - i,
    {
        if i < xs.len() {
            r.push(xs[i].times(window[i]));
        } else {
            r.push(S::zero());
        }
        i += 1;
    }
    r
}

/// Replaces the signal `xs` by what is seen of it through `window`.
pub fn apply_window_in_place<S: Sample>(xs: &mut [S], window: &[S])
    requires
        old(xs)@.len() == window@.len(),
    ensures
        windowed_is(old(xs)@, window@, final(xs)@),
{
    sample::mul_inplace(xs, window);
}

/// Turns the hop `input`, with the samples that `state` remembers, into the bins of `output`.
pub fn frame_analysis<S: Sample, F: Fourier<S>>(
    input: &[S],
    output: &mut [Complex<S>],
    state: &mut DFState<S>,
    fourier: &F,
)
    requires
        old(state).sizes_fit(),
        input@.len() == old(state).frame_size,
        old(output)@.len() == old(state).freq_size,
        fourier::has_size(fourier, old(state).window_size as int),
    ensures
        final(output)@.len() == old(output)@.len(),
        old(state).analyses(fourier, input@, final(output)@, final(state)),
        final(state).sizes_fit(),
{
    let frame: Vec<S> = state.windowed_frame(input);
    let spectrum: Vec<Complex<S>> = fourier.forward(&frame);
    assert(fourier::forward_is(fourier, frame@, spectrum@));
    let wnorm: S = state.wnorm;
    let n: usize = output.len();
    let mut i: usize = 0;
    while i < n
        invariant
            i <= n,
            n == output@.len(),
            n == spectrum@.len(),
            forall|j: int|
                0 <= j < i ==> complex::complex_scales(spectrum@[j], wnorm, #[trigger] output@[j]),
        decreases n - i,
    {
        output[i] = spectrum[i].scaled(wnorm);
        i += 1;
    }
}

/// Turns the bins of `input`, with what earlier frames contribute according to `state`, into the
/// next hop `output` of the signal.
pub fn frame_synthesis<S: Sample, F: Fourier<S>>(
    input: &[Complex<S>],
    output: &mut [S],
    state: &mut DFState<S>,
    fourier: &F,
)
    requires
        old(state).sizes_fit(),
        input@.len() == old(state).freq_size,
        old(output)@.len() == old(state).frame_size,
        fourier::has_size(fourier, old(state).window_size as int),
    ensures
        final(output)@.len() == old(output)@.len(),
        old(state).synthesizes(fourier, input@, final(output)@, final(state)),
        final(state).sizes_fit(),
{
    let x: Vec<S> = fourier.inverse(input);
    assert(fourier::inverse_is(fourier, input@, x@));
    state.overlap_add(x, output);
}

// What holds over several hops.

/// The first `n` hops one after the other.
pub open spec fn joined<S>(hops: Seq<Seq<S>>, n: int) -> Seq<S>
    decreases n,
{
    if n <= 0 {
        Seq::empty()
    } else {
        joined(hops, n - 1) + hops[n - 1]
    }
}

/// However many hops a stream has taken in, it remembers the latest samples of the whole signal,
/// as many as it started with.
pub proof fn latest_samples_are_kept<S: Sample>(
    states: Seq<DFState<S>>,
    hops: Seq<Seq<S>>,
    n: int,
)
    requires
        states.len() == hops.len() + 1,
        forall|k: int|
            0 <= k < hops.len() ==> #[trigger] states[k + 1].analysis_mem@ == shifted(
                states[k].analysis_mem@,
                hops[k],
            ),
        0 <= n <= hops.len(),
    ensures
        states[n].analysis_mem@ == (states[0].analysis_mem@ + joined(hops, n)).skip(
            joined(hops, n).len() as int,
        ),
    decreases n,
{
    let first = states[0].analysis_mem@;
    if n == 0 {
        assert((first + joined(hops, 0)).skip(0) =~= first);
    } else {
        latest_samples_are_kept(states, hops, n - 1);
        let heard = joined(hops, n - 1);
        let hop = hops[n - 1];
        assert(states[n - 1 + 1].analysis_mem@ == shifted(states[n - 1].analysis_mem@, hop));
        assert(shifted((first + heard).skip(heard.len() as int), hop) =~= (first + (heard
            + hop)).skip((heard + hop).len() as int));
    }
}

/// At half overlap the synthesis joins each frame to the one before it: a hop of the output is
/// the first half of its own frame added to the second half of the frame before.
pub proof fn half_overlap_joins_two_frames<S: Sample>(
    x0: Seq<S>,
    x1: Seq<S>,
    mem0: Seq<S>,
    mem1: Seq<S>,
    mem2: Seq<S>,
    out0: Seq<S>,
    out1: Seq<S>,
)
    requires
        overlap_add_is(x0, mem0, out0, mem1),
        overlap_add_is(x1, mem1, out1, mem2),
        mem0.len() == out0.len(),
        out1.len() == out0.len(),
        x0.len() == 2 * out0.len(),
        x1.len() == 2 * out1.len(),
    ensures
        forall|i: int|
            0 <= i < out1.len() ==> sample::adds(x1[i], x0[out0.len() + i], #[trigger] out1[i]),
        mem2 == x1.skip(out1.len() as int),
{
    assert forall|i: int| 0 <= i < out1.len() implies sample::adds(
        x1[i],
        x0[out0.len() + i],
        #[trigger] out1[i],
    ) by {
        assert(mem1[i] == x0[out0.len() + i]);
    }
    assert(mem2 =~= x1.skip(out1.len() as int));
}

} // verus!
