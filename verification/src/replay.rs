//! What happens again when the same is done again.
//!
//! Where every operation has one value, a stream's state and what comes in determine all that
//! follows. So two streams in like states go on alike, and one that was reset goes on as a fresh
//! one.
use vstd::prelude::*;

use crate::complex;
use crate::complex::Complex;
use crate::erb;
use crate::features;
use crate::fourier;
use crate::fourier::Fourier;
use crate::sample;
use crate::sample::{Sample, Wider};
use crate::state;
use crate::state::DFState;
use crate::stream;
use crate::stream::{Answer, GtcrnStream, Model, HOP, N_FFT, N_FREQ};

verus! {

// Frames and spectra.

proof fn lemma_forward_repeats<S: Sample, F: Fourier<S>>(
    fourier: &F,
    frame: Seq<S>,
    a: Seq<Complex<S>>,
    b: Seq<Complex<S>>,
)
    requires
        fourier::has_one_outcome(fourier),
        fourier::forward_is(fourier, frame, a),
        fourier::forward_is(fourier, frame, b),
    ensures
        a == b,
{
}

proof fn lemma_inverse_repeats<S: Sample, F: Fourier<S>>(
    fourier: &F,
    spectrum: Seq<Complex<S>>,
    a: Seq<S>,
    b: Seq<S>,
)
    requires
        fourier::has_one_outcome(fourier),
        fourier::inverse_is(fourier, spectrum, a),
        fourier::inverse_is(fourier, spectrum, b),
    ensures
        a == b,
{
}

proof fn lemma_window_repeats<S: Sample>(xs: Seq<S>, window: Seq<S>, a: Seq<S>, b: Seq<S>)
    requires
        sample::has_one_value::<S>(),
        state::windowed_is(xs, window, a),
        state::windowed_is(xs, window, b),
    ensures
        a == b,
{
    assert forall|i: int| 0 <= i < a.len() implies a[i] == b[i] by {
        assert(sample::multiplies(xs[i], window[i], a[i]));
        assert(sample::multiplies(xs[i], window[i], b[i]));
    }
    assert(a =~= b);
}

/// The same samples have one analysis.
pub proof fn analysis_has_one_outcome<S: Sample, F: Fourier<S>>(
    fourier: &F,
    mem: Seq<S>,
    input: Seq<S>,
    window: Seq<S>,
    wnorm: S,
    a: Seq<Complex<S>>,
    b: Seq<Complex<S>>,
)
    requires
        sample::has_one_value::<S>(),
        fourier::has_one_outcome(fourier),
        state::analysis_is(fourier, mem, input, window, wnorm, a),
        state::analysis_is(fourier, mem, input, window, wnorm, b),
    ensures
        a == b,
{
    let (frame, x) = choose|frame: Seq<S>, spectrum: Seq<Complex<S>>|
        {
            &&& state::windowed_is(mem + input, window, frame)
            &&& #[trigger] fourier::forward_is(fourier, frame, spectrum)
            &&& state::spectrum_scales(spectrum, wnorm, a)
        };
    let (frame2, y) = choose|frame: Seq<S>, spectrum: Seq<Complex<S>>|
        {
            &&& state::windowed_is(mem + input, window, frame)
            &&& #[trigger] fourier::forward_is(fourier, frame, spectrum)
            &&& state::spectrum_scales(spectrum, wnorm, b)
        };
    lemma_window_repeats(mem + input, window, frame, frame2);
    lemma_forward_repeats(fourier, frame, x, y);
    assert forall|i: int| 0 <= i < a.len() implies a[i] == b[i] by {
        assert(complex::complex_scales(x[i], wnorm, a[i]));
        assert(complex::complex_scales(x[i], wnorm, b[i]));
    }
    assert(a =~= b);
}

/// The same bins, with the same contributions of earlier frames, have one synthesis.
pub proof fn synthesis_has_one_outcome<S: Sample, F: Fourier<S>>(
    fourier: &F,
    input: Seq<Complex<S>>,
    window: Seq<S>,
    mem: Seq<S>,
    out_a: Seq<S>,
    mem_a: Seq<S>,
    out_b: Seq<S>,
    mem_b: Seq<S>,
)
    requires
        sample::has_one_value::<S>(),
        fourier::has_one_outcome(fourier),
        state::bins_become(fourier, input, window, mem, out_a, mem_a),
        state::bins_become(fourier, input, window, mem, out_b, mem_b),
        out_a.len() == out_b.len(),
    ensures
        out_a == out_b,
        mem_a == mem_b,
{
    let x = choose|x: Seq<S>|
        #[trigger] fourier::inverse_is(fourier, input, x) && state::synthesis_is(
            x,
            window,
            mem,
            out_a,
            mem_a,
        );
    let y = choose|y: Seq<S>|
        #[trigger] fourier::inverse_is(fourier, input, y) && state::synthesis_is(
            y,
            window,
            mem,
            out_b,
            mem_b,
        );
    lemma_inverse_repeats(fourier, input, x, y);
    lemma_overlap_repeats(x, window, mem, out_a, mem_a, out_b, mem_b);
}

proof fn lemma_overlap_repeats<S: Sample>(
    x: Seq<S>,
    window: Seq<S>,
    mem: Seq<S>,
    out_a: Seq<S>,
    mem_a: Seq<S>,
    out_b: Seq<S>,
    mem_b: Seq<S>,
)
    requires
        sample::has_one_value::<S>(),
        state::synthesis_is(x, window, mem, out_a, mem_a),
        state::synthesis_is(x, window, mem, out_b, mem_b),
        out_a.len() == out_b.len(),
    ensures
        out_a == out_b,
        mem_a == mem_b,
{
    let xw = choose|xw: Seq<S>| #[trigger]
        state::windowed_is(x, window, xw) && state::overlap_add_is(xw, mem, out_a, mem_a);
    let yw = choose|yw: Seq<S>| #[trigger]
        state::windowed_is(x, window, yw) && state::overlap_add_is(yw, mem, out_b, mem_b);
    lemma_window_repeats(x, window, xw, yw);
    let hop = out_a.len() as int;
    assert forall|i: int| 0 <= i < hop implies out_a[i] == out_b[i] by {
        assert(sample::adds(xw[i], mem[i], out_a[i]));
        assert(sample::adds(xw[i], mem[i], out_b[i]));
    }
    assert(out_a =~= out_b);
    assert forall|i: int| 0 <= i < mem.len() implies mem_a[i] == mem_b[i] by {
        if i < mem.len() - hop {
            assert(sample::adds(mem[hop + i], xw[hop + i], mem_a[i]));
            assert(sample::adds(mem[hop + i], xw[hop + i], mem_b[i]));
        } else {
            assert(mem_a[i] == xw[hop + i]);
            assert(mem_b[i] == xw[hop + i]);
        }
    }
    assert(mem_a =~= mem_b);
}

// Deep filtering streams.

/// The two streams are set up alike and remember the same of their signals.
pub open spec fn states_alike<S: Sample>(a: DFState<S>, b: DFState<S>) -> bool {
    &&& a.same_setup(&b)
    &&& a.analysis_mem@ == b.analysis_mem@
    &&& a.synthesis_mem@ == b.synthesis_mem@
}

/// A call of one of the stream's methods: what it is given, and what it gives.
pub enum Call<S> {
    /// Of [`DFState::analysis`].
    Analysis(Seq<S>, Seq<Complex<S>>),
    /// Of [`DFState::synthesis`].
    Synthesis(Seq<Complex<S>>, Seq<S>),
    /// Of [`DFState::process_frame`].
    Process(Seq<S>, Seq<S>),
}

/// Both calls are of the same method and given the same.
pub open spec fn same_question<S>(a: Call<S>, b: Call<S>) -> bool {
    match (a, b) {
        (Call::Analysis(x, _), Call::Analysis(y, _)) => x == y,
        (Call::Synthesis(x, _), Call::Synthesis(y, _)) => x == y,
        (Call::Process(x, _), Call::Process(y, _)) => x == y,
        _ => false,
    }
}

/// The call takes the stream from the state `s` to the state `next`.
pub open spec fn performs<S: Sample, F: Fourier<S>>(
    fourier: &F,
    s: DFState<S>,
    call: Call<S>,
    next: DFState<S>,
) -> bool {
    match call {
        Call::Analysis(input, output) => s.analyses(fourier, input, output, &next),
        Call::Synthesis(input, output) => s.synthesizes(fourier, input, output, &next),
        Call::Process(input, output) => s.processes(fourier, input, output, &next),
    }
}

proof fn lemma_analyses_alike<S: Sample, F: Fourier<S>>(
    fourier: &F,
    a: DFState<S>,
    b: DFState<S>,
    input: Seq<S>,
    out_a: Seq<Complex<S>>,
    out_b: Seq<Complex<S>>,
    a2: DFState<S>,
    b2: DFState<S>,
)
    requires
        sample::has_one_value::<S>(),
        fourier::has_one_outcome(fourier),
        states_alike(a, b),
        a.analyses(fourier, input, out_a, &a2),
        b.analyses(fourier, input, out_b, &b2),
    ensures
        out_a == out_b,
        states_alike(a2, b2),
{
    analysis_has_one_outcome(
        fourier,
        a.analysis_mem@,
        input,
        a.window@,
        a.wnorm,
        out_a,
        out_b,
    );
}

proof fn lemma_synthesizes_alike<S: Sample, F: Fourier<S>>(
    fourier: &F,
    a: DFState<S>,
    b: DFState<S>,
    input: Seq<Complex<S>>,
    out_a: Seq<S>,
    out_b: Seq<S>,
    a2: DFState<S>,
    b2: DFState<S>,
)
    requires
        sample::has_one_value::<S>(),
        fourier::has_one_outcome(fourier),
        states_alike(a, b),
        a.synthesizes(fourier, input, out_a, &a2),
        b.synthesizes(fourier, input, out_b, &b2),
    ensures
        out_a == out_b,
        states_alike(a2, b2),
{
    synthesis_has_one_outcome(
        fourier,
        input,
        a.window@,
        a.synthesis_mem@,
        out_a,
        a2.synthesis_mem@,
        out_b,
        b2.synthesis_mem@,
    );
}

/// Streams in like states answer the same question alike, and are in like states after it.
pub proof fn like_states_answer_alike<S: Sample, F: Fourier<S>>(
    fourier: &F,
    a: DFState<S>,
    b: DFState<S>,
    call_a: Call<S>,
    call_b: Call<S>,
    a2: DFState<S>,
    b2: DFState<S>,
)
    requires
        sample::has_one_value::<S>(),
        fourier::has_one_outcome(fourier),
        states_alike(a, b),
        same_question(call_a, call_b),
        performs(fourier, a, call_a, a2),
        performs(fourier, b, call_b, b2),
    ensures
        call_a == call_b,
        states_alike(a2, b2),
{
    match (call_a, call_b) {
        (Call::Analysis(input, out_a), Call::Analysis(_, out_b)) => {
            lemma_analyses_alike(fourier, a, b, input, out_a, out_b, a2, b2);
        },
        (Call::Synthesis(input, out_a), Call::Synthesis(_, out_b)) => {
            lemma_synthesizes_alike(fourier, a, b, input, out_a, out_b, a2, b2);
        },
        (Call::Process(input, out_a), Call::Process(_, out_b)) => {
            let (a1, x) = choose|between: DFState<S>, spectrum: Seq<Complex<S>>|
                {
                    &&& #[trigger] a.analyses(fourier, input, spectrum, &between)
                    &&& between.synthesizes(fourier, spectrum, out_a, &a2)
                };
            let (b1, y) = choose|between: DFState<S>, spectrum: Seq<Complex<S>>|
                {
                    &&& #[trigger] b.analyses(fourier, input, spectrum, &between)
                    &&& between.synthesizes(fourier, spectrum, out_b, &b2)
                };
            lemma_analyses_alike(fourier, a, b, input, x, y, a1, b1);
            lemma_synthesizes_alike(fourier, a1, b1, x, out_a, out_b, a2, b2);
        },
        _ => {},
    }
}

/// The calls take a stream through the states.
pub open spec fn is_session<S: Sample, F: Fourier<S>>(
    fourier: &F,
    states: Seq<DFState<S>>,
    calls: Seq<Call<S>>,
) -> bool {
    &&& states.len() == calls.len() + 1
    &&& forall|k: int|
        0 <= k < calls.len() ==> performs(
            fourier,
            #[trigger] states[k],
            calls[k],
            states[k + 1],
        )
}

/// However many questions they are asked, streams that start in like states answer alike.
pub proof fn like_states_go_on_alike<S: Sample, F: Fourier<S>>(
    fourier: &F,
    a: Seq<DFState<S>>,
    calls_a: Seq<Call<S>>,
    b: Seq<DFState<S>>,
    calls_b: Seq<Call<S>>,
    n: int,
)
    requires
        sample::has_one_value::<S>(),
        fourier::has_one_outcome(fourier),
        is_session(fourier, a, calls_a),
        is_session(fourier, b, calls_b),
        states_alike(a[0], b[0]),
        0 <= n <= calls_a.len(),
        n <= calls_b.len(),
        forall|k: int|
            0 <= k < n ==> same_question(#[trigger] calls_a[k], #[trigger] calls_b[k]),
    ensures
        states_alike(a[n], b[n]),
        forall|k: int| 0 <= k < n ==> #[trigger] calls_a[k] == #[trigger] calls_b[k],
    decreases n,
{
    if n > 0 {
        like_states_go_on_alike(fourier, a, calls_a, b, calls_b, n - 1);
        let k = n - 1;
        assert(performs(fourier, a[k], calls_a[k], a[k + 1]));
        assert(performs(fourier, b[k], calls_b[k], b[k + 1]));
        like_states_answer_alike(
            fourier,
            a[k],
            b[k],
            calls_a[k],
            calls_b[k],
            a[k + 1],
            b[k + 1],
        );
    }
}

// The ends of a spectrum.

/// Both calls are of the same method and given the same, but for the imaginary parts of the first
/// and the last bin where bins are given.
pub open spec fn same_question_but_for_ends<S: Sample>(a: Call<S>, b: Call<S>) -> bool {
    match (a, b) {
        (Call::Synthesis(x, _), Call::Synthesis(y, _)) => fourier::agree_but_for_imaginary_ends(
            x,
            y,
        ),
        _ => same_question(a, b),
    }
}

/// Both calls gave the same.
pub open spec fn same_reply<S>(a: Call<S>, b: Call<S>) -> bool {
    match (a, b) {
        (Call::Analysis(_, x), Call::Analysis(_, y)) => x == y,
        (Call::Synthesis(_, x), Call::Synthesis(_, y)) => x == y,
        (Call::Process(_, x), Call::Process(_, y)) => x == y,
        _ => false,
    }
}

/// With a transform that does not read them, the imaginary parts of the first and the last bin
/// have no effect on the synthesis: streams in like states give the same output and remember the
/// same.
pub proof fn synthesis_ignores_imaginary_ends<S: Sample, F: Fourier<S>>(
    fourier: &F,
    a: DFState<S>,
    b: DFState<S>,
    input_a: Seq<Complex<S>>,
    input_b: Seq<Complex<S>>,
    out_a: Seq<S>,
    out_b: Seq<S>,
    a2: DFState<S>,
    b2: DFState<S>,
)
    requires
        sample::has_one_value::<S>(),
        fourier::ignores_imaginary_ends(fourier, input_a.len() as int),
        states_alike(a, b),
        fourier::agree_but_for_imaginary_ends(input_a, input_b),
        a.synthesizes(fourier, input_a, out_a, &a2),
        b.synthesizes(fourier, input_b, out_b, &b2),
    ensures
        out_a == out_b,
        a2.synthesis_mem@ == b2.synthesis_mem@,
        states_alike(a2, b2),
{
    let window = a.window@;
    let mem = a.synthesis_mem@;
    let x = choose|x: Seq<S>|
        #[trigger] fourier::inverse_is(fourier, input_a, x) && state::synthesis_is(
            x,
            window,
            mem,
            out_a,
            a2.synthesis_mem@,
        );
    let y = choose|y: Seq<S>|
        #[trigger] fourier::inverse_is(fourier, input_b, y) && state::synthesis_is(
            y,
            window,
            mem,
            out_b,
            b2.synthesis_mem@,
        );
    assert(x == y);
    lemma_overlap_repeats(
        x,
        window,
        mem,
        out_a,
        a2.synthesis_mem@,
        out_b,
        b2.synthesis_mem@,
    );
}

/// However many questions they are asked, streams that start in like states answer alike, whatever
/// the imaginary parts of the first and the last bin of the spectra are that they synthesize, if
/// the transform does not read them.
pub proof fn imaginary_ends_leave_no_trace<S: Sample, F: Fourier<S>>(
    fourier: &F,
    a: Seq<DFState<S>>,
    calls_a: Seq<Call<S>>,
    b: Seq<DFState<S>>,
    calls_b: Seq<Call<S>>,
    n: int,
)
    requires
        sample::has_one_value::<S>(),
        fourier::has_one_outcome(fourier),
        fourier::ignores_imaginary_ends(fourier, a[0].freq_size as int),
        is_session(fourier, a, calls_a),
        is_session(fourier, b, calls_b),
        states_alike(a[0], b[0]),
        0 <= n <= calls_a.len(),
        n <= calls_b.len(),
        forall|k: int|
            0 <= k < n ==> same_question_but_for_ends(#[trigger] calls_a[k], #[trigger] calls_b[k]),
        forall|k: int|
            0 <= k < n ==> ((#[trigger] calls_a[k]) matches Call::Synthesis(x, _) ==> x.len()
                == a[0].freq_size),
    ensures
        states_alike(a[n], b[n]),
        a[n].same_setup(&a[0]),
        forall|k: int| 0 <= k < n ==> same_reply(#[trigger] calls_a[k], #[trigger] calls_b[k]),
    decreases n,
{
    if n > 0 {
        imaginary_ends_leave_no_trace(fourier, a, calls_a, b, calls_b, n - 1);
        let k = n - 1;
        assert(performs(fourier, a[k], calls_a[k], a[k + 1]));
        assert(performs(fourier, b[k], calls_b[k], b[k + 1]));
        match (calls_a[k], calls_b[k]) {
            (Call::Synthesis(x, out_a), Call::Synthesis(y, out_b)) => {
                synthesis_ignores_imaginary_ends(
                    fourier,
                    a[k],
                    b[k],
                    x,
                    y,
                    out_a,
                    out_b,
                    a[k + 1],
                    b[k + 1],
                );
            },
            _ => {
                like_states_answer_alike(
                    fourier,
                    a[k],
                    b[k],
                    calls_a[k],
                    calls_b[k],
                    a[k + 1],
                    b[k + 1],
                );
            },
        }
    }
}

// Setting up twice.

proof fn lemma_quarter_turn_repeats<W: Sample>(a: W, b: W)
    requires
        sample::has_one_value::<W>(),
        features::quarter_turn_is(a),
        features::quarter_turn_is(b),
    ensures
        a == b,
{
}

proof fn lemma_vorbis_repeats<S: Sample, W: Wider<S>>(i: usize, n: usize, a: S, b: S)
    requires
        sample::has_one_value::<W>(),
        sample::narrows_to_one_value::<S, W>(),
        features::vorbis_is::<S, W>(i, n, a),
        features::vorbis_is::<S, W>(i, n, b),
    ensures
        a == b,
{
    assert forall|x: W, y: W|
        features::quarter_turn_is(x) && features::quarter_turn_is(y) implies x == y by {
        lemma_quarter_turn_repeats(x, y);
    }
    assert forall|x: W, y: W|
        features::half_arch_is(i, n, x) && features::half_arch_is(i, n, y) implies x == y by {}
}

proof fn lemma_wnorm_repeats<S: Sample>(window_size: usize, frame_size: usize, a: S, b: S)
    requires
        sample::has_one_value::<S>(),
        features::wnorm_is(window_size, frame_size, a),
        features::wnorm_is(window_size, frame_size, b),
    ensures
        a == b,
{
}

proof fn lemma_erb_of_freq_repeats<S: Sample>(freq: S, a: S, b: S)
    requires
        sample::has_one_value::<S>(),
        erb::erb_of_freq_is(freq, a),
        erb::erb_of_freq_is(freq, b),
    ensures
        a == b,
{
}

proof fn lemma_freq_of_erb_repeats<S: Sample>(n: S, a: S, b: S)
    requires
        sample::has_one_value::<S>(),
        erb::freq_of_erb_is(n, a),
        erb::freq_of_erb_is(n, b),
    ensures
        a == b,
{
}

proof fn lemma_erb_grid_repeats<S: Sample>(
    sr: usize,
    fft_size: usize,
    nb_bands: usize,
    bin: S,
    low: S,
    step: S,
    bin2: S,
    low2: S,
    step2: S,
)
    requires
        sample::has_one_value::<S>(),
        erb::erb_grid_is(sr, fft_size, nb_bands, bin, low, step),
        erb::erb_grid_is(sr, fft_size, nb_bands, bin2, low2, step2),
    ensures
        bin == bin2,
        low == low2,
        step == step2,
{
    assert forall|f: S, x: S, y: S| #[trigger]
        erb::erb_of_freq_is(f, x) && #[trigger] erb::erb_of_freq_is(f, y) implies x == y by {
        lemma_erb_of_freq_repeats(f, x, y);
    }
}

proof fn lemma_erb_edge_repeats<S: Sample>(bin: S, low: S, step: S, i: usize, a: usize, b: usize)
    requires
        sample::has_one_value::<S>(),
        erb::erb_edge_is(bin, low, step, i, a),
        erb::erb_edge_is(bin, low, step, i, b),
    ensures
        a == b,
{
    assert forall|n: S, x: S, y: S| #[trigger]
        erb::freq_of_erb_is(n, x) && #[trigger] erb::freq_of_erb_is(n, y) implies x == y by {
        lemma_freq_of_erb_repeats(n, x, y);
    }
}

/// The same bands have one layout.
pub proof fn bands_have_one_layout<S: Sample>(
    sr: usize,
    fft_size: usize,
    nb_bands: usize,
    min_nb_freqs: usize,
    a: Option<Vec<usize>>,
    b: Option<Vec<usize>>,
)
    requires
        sample::has_one_value::<S>(),
        erb::erb_fb_is::<S>(sr, fft_size, nb_bands, min_nb_freqs, a),
        erb::erb_fb_is::<S>(sr, fft_size, nb_bands, min_nb_freqs, b),
    ensures
        a is Some <==> b is Some,
        a is Some ==> a->Some_0@ == b->Some_0@,
{
    let least = erb::low_word(min_nb_freqs);
    let x = choose|edges: Seq<usize>|
        {
            &&& #[trigger] erb::erb_edges_are::<S>(sr, fft_size, nb_bands, edges)
            &&& a is Some <==> erb::layout_exists(edges, fft_size, least)
            &&& a matches Some(widths) ==> widths@ == erb::layout(edges, fft_size, least)
        };
    let y = choose|edges: Seq<usize>|
        {
            &&& #[trigger] erb::erb_edges_are::<S>(sr, fft_size, nb_bands, edges)
            &&& b is Some <==> erb::layout_exists(edges, fft_size, least)
            &&& b matches Some(widths) ==> widths@ == erb::layout(edges, fft_size, least)
        };
    lemma_erb_edges_repeat::<S>(sr, fft_size, nb_bands, x, y);
}

proof fn lemma_erb_edges_repeat<S: Sample>(
    sr: usize,
    fft_size: usize,
    nb_bands: usize,
    x: Seq<usize>,
    y: Seq<usize>,
)
    requires
        sample::has_one_value::<S>(),
        erb::erb_edges_are::<S>(sr, fft_size, nb_bands, x),
        erb::erb_edges_are::<S>(sr, fft_size, nb_bands, y),
    ensures
        x == y,
{
    let (bin, low, step) = choose|bin: S, low: S, step: S|
        #![trigger erb::erb_grid_is(sr, fft_size, nb_bands, bin, low, step)]
        {
            &&& erb::erb_grid_is(sr, fft_size, nb_bands, bin, low, step)
            &&& forall|i: int|
                0 <= i < nb_bands ==> erb::erb_edge_is(
                    bin,
                    low,
                    step,
                    (i + 1) as usize,
                    #[trigger] x[i],
                )
        };
    let (bin2, low2, step2) = choose|bin: S, low: S, step: S|
        #![trigger erb::erb_grid_is(sr, fft_size, nb_bands, bin, low, step)]
        {
            &&& erb::erb_grid_is(sr, fft_size, nb_bands, bin, low, step)
            &&& forall|i: int|
                0 <= i < nb_bands ==> erb::erb_edge_is(
                    bin,
                    low,
                    step,
                    (i + 1) as usize,
                    #[trigger] y[i],
                )
        };
    lemma_erb_grid_repeats(sr, fft_size, nb_bands, bin, low, step, bin2, low2, step2);
    assert forall|i: int| 0 <= i < nb_bands implies x[i] == y[i] by {
        lemma_erb_edge_repeats(bin, low, step, (i + 1) as usize, x[i], y[i]);
    }
    assert(x =~= y);
}

/// Streams of the same sizes and bands are set up alike.
pub proof fn setup_has_one_outcome<S: Sample, W: Wider<S>>(
    sr: usize,
    fft_size: usize,
    hop_size: usize,
    nb_bands: usize,
    min_nb_freqs: usize,
    a: DFState<S>,
    b: DFState<S>,
)
    requires
        sample::has_one_value::<S>(),
        sample::has_one_value::<W>(),
        sample::narrows_to_one_value::<S, W>(),
        a.is_fresh::<W>(sr, fft_size, hop_size),
        b.is_fresh::<W>(sr, fft_size, hop_size),
        erb::erb_fb_is::<S>(sr, fft_size, nb_bands, min_nb_freqs, Some(a.erb)),
        erb::erb_fb_is::<S>(sr, fft_size, nb_bands, min_nb_freqs, Some(b.erb)),
    ensures
        a.same_setup(&b),
{
    bands_have_one_layout::<S>(
        sr,
        fft_size,
        nb_bands,
        min_nb_freqs,
        Some(a.erb),
        Some(b.erb),
    );
    lemma_wnorm_repeats(fft_size, hop_size, a.wnorm, b.wnorm);
    assert forall|i: int| 0 <= i < fft_size implies a.window@[i] == b.window@[i] by {
        lemma_vorbis_repeats::<S, W>(
            i as usize,
            (fft_size / 2) as usize,
            a.window@[i],
            b.window@[i],
        );
    }
    assert(a.window@ =~= b.window@);
}

proof fn lemma_silence_repeats<S: Sample>(a: Seq<S>, b: Seq<S>, n: int)
    requires
        sample::has_one_value::<S>(),
        sample::silence(a, n),
        sample::silence(b, n),
    ensures
        a == b,
{
    assert forall|i: int| 0 <= i < n implies a[i] == b[i] by {
        assert(sample::is_zero(a[i]) && sample::is_zero(b[i]));
    }
    assert(a =~= b);
}

/// A stream that was reset goes on as a fresh one: set up for the same sizes and bands as `first`
/// was, `fresh` answers every question as the stream does that started as `first` and has been
/// reset since.
pub proof fn reset_stream_goes_on_as_fresh<S: Sample, W: Wider<S>, F: Fourier<S>>(
    fourier: &F,
    sr: usize,
    fft_size: usize,
    hop_size: usize,
    nb_bands: usize,
    min_nb_freqs: usize,
    first: DFState<S>,
    reset: Seq<DFState<S>>,
    calls_reset: Seq<Call<S>>,
    fresh: Seq<DFState<S>>,
    calls_fresh: Seq<Call<S>>,
    n: int,
)
    requires
        sample::has_one_value::<S>(),
        sample::has_one_value::<W>(),
        sample::narrows_to_one_value::<S, W>(),
        fourier::has_one_outcome(fourier),
        first.is_fresh::<W>(sr, fft_size, hop_size),
        erb::erb_fb_is::<S>(sr, fft_size, nb_bands, min_nb_freqs, Some(first.erb)),
        is_session(fourier, reset, calls_reset),
        reset[0].same_setup(&first),
        reset[0].is_silent(),
        is_session(fourier, fresh, calls_fresh),
        fresh[0].is_fresh::<W>(sr, fft_size, hop_size),
        erb::erb_fb_is::<S>(sr, fft_size, nb_bands, min_nb_freqs, Some(fresh[0].erb)),
        0 <= n <= calls_reset.len(),
        n <= calls_fresh.len(),
        forall|k: int|
            0 <= k < n ==> same_question(#[trigger] calls_reset[k], #[trigger] calls_fresh[k]),
    ensures
        states_alike(reset[n], fresh[n]),
        forall|k: int| 0 <= k < n ==> #[trigger] calls_reset[k] == #[trigger] calls_fresh[k],
{
    setup_has_one_outcome::<S, W>(
        sr,
        fft_size,
        hop_size,
        nb_bands,
        min_nb_freqs,
        first,
        fresh[0],
    );
    let len = fft_size - hop_size;
    lemma_silence_repeats(reset[0].analysis_mem@, fresh[0].analysis_mem@, len);
    lemma_silence_repeats(reset[0].synthesis_mem@, fresh[0].synthesis_mem@, len);
    like_states_go_on_alike(fourier, reset, calls_reset, fresh, calls_fresh, n);
}

// Streams around a model.

/// The two answers are the same.
pub open spec fn same_answer<S: Sample, C, E>(
    a: Result<Answer<S, C, E>, E>,
    b: Result<Answer<S, C, E>, E>,
) -> bool {
    match (a, b) {
        (Ok(x), Ok(y)) => {
            &&& x.conv == y.conv
            &&& x.tra == y.tra
            &&& x.inter == y.inter
            &&& match (x.enhanced, y.enhanced) {
                (Ok(u), Ok(v)) => u@ == v@,
                (Err(d), Err(e)) => d == e,
                _ => false,
            }
        },
        (Err(d), Err(e)) => d == e,
        _ => false,
    }
}

/// The two results are the same.
pub open spec fn same_result<S: Sample, E>(a: Result<[S; HOP], E>, b: Result<[S; HOP], E>) -> bool {
    match (a, b) {
        (Ok(x), Ok(y)) => x@ == y@,
        (Err(d), Err(e)) => d == e,
        _ => false,
    }
}

/// What the model answers depends on what it is handed alone, whatever its sessions went through,
/// and so do its empty caches.
pub open spec fn answers_alike<S: Sample, M: Model<S>>() -> bool {
    &&& forall|
        model: M,
        shape: &[usize],
        v: &[S],
        conv: M::Cache,
        tra: M::Cache,
        inter: M::Cache,
        after: M,
        answer: Result<Answer<S, M::Cache, M::Error>, M::Error>,
        model2: M,
        shape2: &[usize],
        v2: &[S],
        after2: M,
        answer2: Result<Answer<S, M::Cache, M::Error>, M::Error>,
    |
        {
            &&& #[trigger] call_ensures(
                M::run,
                (model, shape, v, &conv, &tra, &inter),
                (after, answer),
            )
            &&& #[trigger] call_ensures(
                M::run,
                (model2, shape2, v2, &conv, &tra, &inter),
                (after2, answer2),
            )
            &&& shape@ == shape2@
            &&& v@ == v2@
        } ==> same_answer(answer, answer2)
    &&& forall|
        model: M,
        shape: &[usize],
        cache: M::Cache,
        model2: M,
        shape2: &[usize],
        cache2: M::Cache,
    |
        #[trigger] call_ensures(M::zero_cache, (&model, shape), cache) && #[trigger] call_ensures(
            M::zero_cache,
            (&model2, shape2),
            cache2,
        ) && shape@ == shape2@ ==> cache == cache2
}

/// The two streams see through the same window and remember the same.
pub open spec fn streams_alike<S: Sample, C>(a: GtcrnStream<S, C>, b: GtcrnStream<S, C>) -> bool {
    &&& a.stft.window@ == b.stft.window@
    &&& a.ana_buf@ == b.ana_buf@
    &&& a.ola@ == b.ola@
    &&& a.conv_cache == b.conv_cache
    &&& a.tra_cache == b.tra_cache
    &&& a.inter_cache == b.inter_cache
}

proof fn lemma_mix_repeats<S: Sample, F: Fourier<S>>(
    fourier: &F,
    window: Seq<S>,
    ana: Seq<S>,
    a: Seq<S>,
    b: Seq<S>,
)
    requires
        sample::has_one_value::<S>(),
        fourier::has_one_outcome(fourier),
        stream::mix_is(fourier, window, ana, a),
        stream::mix_is(fourier, window, ana, b),
    ensures
        a == b,
{
    let x = choose|spectrum: Seq<Complex<S>>|
        {
            &&& spectrum.len() == N_FREQ
            &&& #[trigger] stream::spectrum_is(fourier, window, ana, spectrum)
            &&& a.len() == 2 * N_FREQ
            &&& forall|f: int|
                0 <= f < N_FREQ ==> a[2 * f] == (#[trigger] spectrum[f]).re && a[2 * f + 1]
                    == spectrum[f].im
        };
    let y = choose|spectrum: Seq<Complex<S>>|
        {
            &&& spectrum.len() == N_FREQ
            &&& #[trigger] stream::spectrum_is(fourier, window, ana, spectrum)
            &&& b.len() == 2 * N_FREQ
            &&& forall|f: int|
                0 <= f < N_FREQ ==> b[2 * f] == (#[trigger] spectrum[f]).re && b[2 * f + 1]
                    == spectrum[f].im
        };
    let u = choose|seen: Seq<S>|
        {
            &&& state::windowed_is(ana, window, seen)
            &&& #[trigger] fourier::forward_is(fourier, seen, x)
        };
    let v = choose|seen: Seq<S>|
        {
            &&& state::windowed_is(ana, window, seen)
            &&& #[trigger] fourier::forward_is(fourier, seen, y)
        };
    lemma_window_repeats(ana, window, u, v);
    lemma_forward_repeats(fourier, u, x, y);
    assert forall|i: int| 0 <= i < a.len() implies a[i] == b[i] by {
        let f = i / 2;
        assert(x[f] == y[f]);
        assert(i == 2 * f || i == 2 * f + 1);
    }
    assert(a =~= b);
}

proof fn lemma_frame_repeats<S: Sample, F: Fourier<S>>(
    fourier: &F,
    window: Seq<S>,
    flat: Seq<S>,
    a: Seq<S>,
    b: Seq<S>,
)
    requires
        sample::has_one_value::<S>(),
        fourier::has_one_outcome(fourier),
        stream::enhanced_frame_is(fourier, window, flat, a),
        stream::enhanced_frame_is(fourier, window, flat, b),
    ensures
        a == b,
{
    let x = choose|spectrum: Seq<Complex<S>>|
        stream::real_ended_is(flat, spectrum) && #[trigger] stream::frame_is(
            fourier,
            window,
            spectrum,
            a,
        );
    let y = choose|spectrum: Seq<Complex<S>>|
        stream::real_ended_is(flat, spectrum) && #[trigger] stream::frame_is(
            fourier,
            window,
            spectrum,
            b,
        );
    assert forall|f: int| 0 <= f < N_FREQ implies x[f] == y[f] by {
        assert(x[f].re == flat[2 * f] && y[f].re == flat[2 * f]);
        if 0 < f < N_FREQ - 1 {
            assert(x[f].im == flat[2 * f + 1] && y[f].im == flat[2 * f + 1]);
        }
    }
    assert(x =~= y);
    let (u, n) = choose|u: Seq<S>, n: S|
        {
            &&& #[trigger] fourier::inverse_is(fourier, x, u)
            &&& #[trigger] sample::is_count(N_FFT, n)
            &&& a.len() == N_FFT
            &&& forall|i: int|
                0 <= i < N_FFT ==> stream::normalized_is(u[i], n, window[i], #[trigger] a[i])
        };
    let (v, m) = choose|u: Seq<S>, n: S|
        {
            &&& #[trigger] fourier::inverse_is(fourier, x, u)
            &&& #[trigger] sample::is_count(N_FFT, n)
            &&& b.len() == N_FFT
            &&& forall|i: int|
                0 <= i < N_FFT ==> stream::normalized_is(u[i], n, window[i], #[trigger] b[i])
        };
    lemma_inverse_repeats(fourier, x, u, v);
    assert(n == m);
    assert forall|i: int| 0 <= i < N_FFT implies a[i] == b[i] by {
        assert(stream::normalized_is(u[i], n, window[i], a[i]));
        assert(stream::normalized_is(u[i], n, window[i], b[i]));
    }
    assert(a =~= b);
}

/// Like streams settle the same answer alike.
pub proof fn like_streams_settle_alike<S: Sample, C, E, F: Fourier<S>>(
    fourier: &F,
    a: GtcrnStream<S, C>,
    b: GtcrnStream<S, C>,
    answer_a: Answer<S, C, E>,
    answer_b: Answer<S, C, E>,
    a2: GtcrnStream<S, C>,
    b2: GtcrnStream<S, C>,
    result_a: Result<[S; HOP], E>,
    result_b: Result<[S; HOP], E>,
)
    requires
        sample::has_one_value::<S>(),
        fourier::has_one_outcome(fourier),
        streams_alike(a, b),
        same_answer::<S, C, E>(Ok(answer_a), Ok(answer_b)),
        a.settles(fourier, answer_a, &a2, result_a),
        b.settles(fourier, answer_b, &b2, result_b),
    ensures
        streams_alike(a2, b2),
        same_result(result_a, result_b),
{
    if answer_a.enhanced is Ok {
        let flat = answer_a.enhanced->Ok_0@;
        let x = choose|frame: Seq<S>|
            {
                &&& #[trigger] stream::enhanced_frame_is(fourier, a.stft.window@, flat, frame)
                &&& stream::halves_overlap(frame, a.ola@, result_a->Ok_0@, a2.ola@)
            };
        let y = choose|frame: Seq<S>|
            {
                &&& #[trigger] stream::enhanced_frame_is(fourier, a.stft.window@, flat, frame)
                &&& stream::halves_overlap(frame, a.ola@, result_b->Ok_0@, b2.ola@)
            };
        lemma_frame_repeats(fourier, a.stft.window@, flat, x, y);
        let out_a = result_a->Ok_0@;
        let out_b = result_b->Ok_0@;
        assert forall|i: int| 0 <= i < HOP implies out_a[i] == out_b[i] by {
            assert(sample::adds(x[i], a.ola@[i], out_a[i]));
            assert(sample::adds(x[i], a.ola@[i], out_b[i]));
        }
        assert(out_a =~= out_b);
    }
}

/// Like streams process the same hop alike, whatever sessions of the model they use.
pub proof fn like_streams_process_alike<S: Sample, M: Model<S>, F: Fourier<S>>(
    fourier: &F,
    hop: Seq<S>,
    model_a: M,
    a: GtcrnStream<S, M::Cache>,
    after_a: M,
    a2: GtcrnStream<S, M::Cache>,
    result_a: Result<[S; HOP], M::Error>,
    model_b: M,
    b: GtcrnStream<S, M::Cache>,
    after_b: M,
    b2: GtcrnStream<S, M::Cache>,
    result_b: Result<[S; HOP], M::Error>,
)
    requires
        sample::has_one_value::<S>(),
        fourier::has_one_outcome(fourier),
        answers_alike::<S, M>(),
        streams_alike(a, b),
        a.processes(model_a, fourier, hop, &a2, after_a, result_a),
        b.processes(model_b, fourier, hop, &b2, after_b, result_b),
    ensures
        streams_alike(a2, b2),
        same_result(result_a, result_b),
{
    let (mix_a, answer_a) = choose|
        mix: Seq<S>,
        answer: Result<Answer<S, M::Cache, M::Error>, M::Error>,
    | #[trigger]
        a.runs_hop(model_a, fourier, hop, mix, answer, &a2, after_a, result_a);
    let (mix_b, answer_b) = choose|
        mix: Seq<S>,
        answer: Result<Answer<S, M::Cache, M::Error>, M::Error>,
    | #[trigger]
        b.runs_hop(model_b, fourier, hop, mix, answer, &b2, after_b, result_b);
    let ana = state::shifted(a.ana_buf@, hop);
    let heard_a = choose|heard: GtcrnStream<S, M::Cache>|
        {
            &&& #[trigger] a.hears(hop, &heard)
            &&& match answer_a {
                Ok(x) => heard.settles(fourier, x, &a2, result_a),
                Err(e) => result_a == Err::<[S; HOP], M::Error>(e) && a2 == heard,
            }
        };
    let heard_b = choose|heard: GtcrnStream<S, M::Cache>|
        {
            &&& #[trigger] b.hears(hop, &heard)
            &&& match answer_b {
                Ok(x) => heard.settles(fourier, x, &b2, result_b),
                Err(e) => result_b == Err::<[S; HOP], M::Error>(e) && b2 == heard,
            }
        };
    lemma_mix_repeats(fourier, a.stft.window@, ana, mix_a, mix_b);
    assert(same_answer(answer_a, answer_b));
    if answer_a is Ok {
        like_streams_settle_alike(
            fourier,
            heard_a,
            heard_b,
            answer_a->Ok_0,
            answer_b->Ok_0,
            a2,
            b2,
            result_a,
            result_b,
        );
    }
}

/// The hops take a session and a stream through their states, with the results given; a failed hop
/// does not end it.
pub open spec fn goes_through<S: Sample, M: Model<S>, F: Fourier<S>>(
    fourier: &F,
    models: Seq<M>,
    streams: Seq<GtcrnStream<S, M::Cache>>,
    hops: Seq<Seq<S>>,
    results: Seq<Result<[S; HOP], M::Error>>,
) -> bool {
    &&& models.len() == hops.len() + 1
    &&& streams.len() == hops.len() + 1
    &&& results.len() == hops.len()
    &&& forall|k: int|
        0 <= k < hops.len() ==> (#[trigger] streams[k]).processes(
            models[k],
            fourier,
            hops[k],
            &streams[k + 1],
            models[k + 1],
            results[k],
        )
}

/// However many hops come in, streams that start alike give the same results.
pub proof fn like_streams_go_on_alike<S: Sample, M: Model<S>, F: Fourier<S>>(
    fourier: &F,
    hops: Seq<Seq<S>>,
    models_a: Seq<M>,
    a: Seq<GtcrnStream<S, M::Cache>>,
    results_a: Seq<Result<[S; HOP], M::Error>>,
    models_b: Seq<M>,
    b: Seq<GtcrnStream<S, M::Cache>>,
    results_b: Seq<Result<[S; HOP], M::Error>>,
    n: int,
)
    requires
        sample::has_one_value::<S>(),
        fourier::has_one_outcome(fourier),
        answers_alike::<S, M>(),
        goes_through(fourier, models_a, a, hops, results_a),
        goes_through(fourier, models_b, b, hops, results_b),
        streams_alike(a[0], b[0]),
        0 <= n <= hops.len(),
    ensures
        streams_alike(a[n], b[n]),
        forall|k: int| 0 <= k < n ==> same_result(#[trigger] results_a[k], #[trigger] results_b[k]),
    decreases n,
{
    if n > 0 {
        like_streams_go_on_alike(
            fourier,
            hops,
            models_a,
            a,
            results_a,
            models_b,
            b,
            results_b,
            n - 1,
        );
        let k = n - 1;
        assert(a[k].processes(
            models_a[k],
            fourier,
            hops[k],
            &a[k + 1],
            models_a[k + 1],
            results_a[k],
        ));
        assert(b[k].processes(
            models_b[k],
            fourier,
            hops[k],
            &b[k + 1],
            models_b[k + 1],
            results_b[k],
        ));
        like_streams_process_alike(
            fourier,
            hops[k],
            models_a[k],
            a[k],
            models_a[k + 1],
            a[k + 1],
            results_a[k],
            models_b[k],
            b[k],
            models_b[k + 1],
            b[k + 1],
            results_b[k],
        );
    }
}

proof fn lemma_sqrt_hann_repeats<S: Sample>(n: usize, a: Seq<S>, b: Seq<S>)
    requires
        sample::has_one_value::<S>(),
        stream::sqrt_hann_window(n, a),
        stream::sqrt_hann_window(n, b),
    ensures
        a == b,
{
    assert forall|i: int| 0 <= i < n implies a[i] == b[i] by {
        lemma_sqrt_hann_place_repeats(i as usize, n, a[i], b[i]);
    }
    assert(a =~= b);
}

proof fn lemma_angle_repeats<S: Sample>(i: usize, n: usize, a: S, b: S)
    requires
        sample::has_one_value::<S>(),
        stream::angle_is(i, n, a),
        stream::angle_is(i, n, b),
    ensures
        a == b,
{
}

proof fn lemma_sqrt_hann_place_repeats<S: Sample>(i: usize, n: usize, a: S, b: S)
    requires
        sample::has_one_value::<S>(),
        stream::sqrt_hann_is(i, n, a),
        stream::sqrt_hann_is(i, n, b),
    ensures
        a == b,
{
    assert forall|x: S, y: S|
        stream::angle_is(i, n, x) && stream::angle_is(i, n, y) implies x == y by {
        lemma_angle_repeats(i, n, x, y);
    }
}

/// Streams that have heard nothing are alike, whether they are new or were reset.
pub proof fn fresh_streams_are_alike<S: Sample, M: Model<S>>(
    model_a: M,
    a: GtcrnStream<S, M::Cache>,
    model_b: M,
    b: GtcrnStream<S, M::Cache>,
)
    requires
        sample::has_one_value::<S>(),
        answers_alike::<S, M>(),
        a.is_fresh(&model_a),
        b.is_fresh(&model_b),
        stream::sqrt_hann_window(N_FFT, a.stft.window@),
        stream::sqrt_hann_window(N_FFT, b.stft.window@),
    ensures
        streams_alike(a, b),
{
    lemma_sqrt_hann_repeats(N_FFT, a.stft.window@, b.stft.window@);
    lemma_silence_repeats(a.ana_buf@, b.ana_buf@, N_FFT as int);
    lemma_silence_repeats(a.ola@, b.ola@, HOP as int);
}

/// A model stream that was reset goes on as a new one: `first` is the stream as it was made, `a`
/// the same stream from its reset on, and `b` a new one.
pub proof fn reset_model_stream_goes_on_as_new<S: Sample, M: Model<S>, F: Fourier<S>>(
    fourier: &F,
    first: GtcrnStream<S, M::Cache>,
    hops: Seq<Seq<S>>,
    models_a: Seq<M>,
    a: Seq<GtcrnStream<S, M::Cache>>,
    results_a: Seq<Result<[S; HOP], M::Error>>,
    models_b: Seq<M>,
    b: Seq<GtcrnStream<S, M::Cache>>,
    results_b: Seq<Result<[S; HOP], M::Error>>,
    n: int,
)
    requires
        sample::has_one_value::<S>(),
        fourier::has_one_outcome(fourier),
        answers_alike::<S, M>(),
        stream::sqrt_hann_window(N_FFT, first.stft.window@),
        goes_through(fourier, models_a, a, hops, results_a),
        a[0].stft == first.stft,
        a[0].is_fresh(&models_a[0]),
        goes_through(fourier, models_b, b, hops, results_b),
        b[0].is_fresh(&models_b[0]),
        stream::sqrt_hann_window(N_FFT, b[0].stft.window@),
        0 <= n <= hops.len(),
    ensures
        streams_alike(a[n], b[n]),
        forall|k: int| 0 <= k < n ==> same_result(#[trigger] results_a[k], #[trigger] results_b[k]),
{
    fresh_streams_are_alike(models_a[0], a[0], models_b[0], b[0]);
    like_streams_go_on_alike(
        fourier,
        hops,
        models_a,
        a,
        results_a,
        models_b,
        b,
        results_b,
        n,
    );
}

/// The imaginary parts of the first and the last bin do not matter: answers whose spectra differ
/// nowhere else are settled alike.
pub proof fn imaginary_ends_do_not_matter<S: Sample, C, E, F: Fourier<S>>(
    fourier: &F,
    s: GtcrnStream<S, C>,
    a: Answer<S, C, E>,
    b: Answer<S, C, E>,
    next: GtcrnStream<S, C>,
    result: Result<[S; HOP], E>,
)
    requires
        a.conv == b.conv,
        a.tra == b.tra,
        a.inter == b.inter,
        a.enhanced is Ok,
        b.enhanced is Ok,
        forall|i: int|
            0 <= i < 2 * N_FREQ && i != 1 && i != 2 * N_FREQ - 1 ==> #[trigger] a.enhanced->Ok_0@[i]
                == b.enhanced->Ok_0@[i],
    ensures
        s.settles(fourier, a, &next, result) <==> s.settles(fourier, b, &next, result),
{
    let x = a.enhanced->Ok_0@;
    let y = b.enhanced->Ok_0@;
    let window = s.stft.window@;
    assert forall|frame: Seq<S>| #[trigger]
        stream::enhanced_frame_is(fourier, window, x, frame) == stream::enhanced_frame_is(
            fourier,
            window,
            y,
            frame,
        ) by {
        if stream::enhanced_frame_is(fourier, window, x, frame) {
            lemma_frame_ends(fourier, window, x, y, frame);
        }
        if stream::enhanced_frame_is(fourier, window, y, frame) {
            lemma_frame_ends(fourier, window, y, x, frame);
        }
    }
    if s.settles(fourier, a, &next, result) {
        lemma_ends_settle(fourier, s, a, b, next, result);
    }
    if s.settles(fourier, b, &next, result) {
        lemma_ends_settle(fourier, s, b, a, next, result);
    }
}

/// Streams in like states that are answered alike but for the imaginary parts of the first and the
/// last bin give the same results and are in like states after it.
pub proof fn like_streams_ignore_imaginary_ends<S: Sample, C, E, F: Fourier<S>>(
    fourier: &F,
    a: GtcrnStream<S, C>,
    b: GtcrnStream<S, C>,
    answer_a: Answer<S, C, E>,
    answer_b: Answer<S, C, E>,
    a2: GtcrnStream<S, C>,
    b2: GtcrnStream<S, C>,
    result_a: Result<[S; HOP], E>,
    result_b: Result<[S; HOP], E>,
)
    requires
        sample::has_one_value::<S>(),
        fourier::has_one_outcome(fourier),
        streams_alike(a, b),
        answer_a.conv == answer_b.conv,
        answer_a.tra == answer_b.tra,
        answer_a.inter == answer_b.inter,
        answer_a.enhanced is Ok,
        answer_b.enhanced is Ok,
        forall|i: int|
            0 <= i < 2 * N_FREQ && i != 1 && i != 2 * N_FREQ
                - 1 ==> #[trigger] answer_a.enhanced->Ok_0@[i] == answer_b.enhanced->Ok_0@[i],
        a.settles(fourier, answer_a, &a2, result_a),
        b.settles(fourier, answer_b, &b2, result_b),
    ensures
        result_a is Ok,
        streams_alike(a2, b2),
        same_result(result_a, result_b),
{
    imaginary_ends_do_not_matter(fourier, b, answer_a, answer_b, b2, result_b);
    like_streams_settle_alike(
        fourier,
        a,
        b,
        answer_a,
        answer_a,
        a2,
        b2,
        result_a,
        result_b,
    );
}

proof fn lemma_ends_settle<S: Sample, C, E, F: Fourier<S>>(
    fourier: &F,
    s: GtcrnStream<S, C>,
    a: Answer<S, C, E>,
    b: Answer<S, C, E>,
    next: GtcrnStream<S, C>,
    result: Result<[S; HOP], E>,
)
    requires
        a.conv == b.conv,
        a.tra == b.tra,
        a.inter == b.inter,
        a.enhanced is Ok,
        b.enhanced is Ok,
        forall|frame: Seq<S>|
            #[trigger] stream::enhanced_frame_is(
                fourier,
                s.stft.window@,
                a.enhanced->Ok_0@,
                frame,
            ) ==> stream::enhanced_frame_is(fourier, s.stft.window@, b.enhanced->Ok_0@, frame),
        s.settles(fourier, a, &next, result),
    ensures
        s.settles(fourier, b, &next, result),
{
    let frame = choose|frame: Seq<S>|
        {
            &&& #[trigger] stream::enhanced_frame_is(
                fourier,
                s.stft.window@,
                a.enhanced->Ok_0@,
                frame,
            )
            &&& stream::halves_overlap(frame, s.ola@, result->Ok_0@, next.ola@)
        };
    assert(stream::enhanced_frame_is(fourier, s.stft.window@, b.enhanced->Ok_0@, frame));
}

proof fn lemma_real_ends<S: Sample>(x: Seq<S>, y: Seq<S>, spectrum: Seq<Complex<S>>)
    requires
        forall|i: int|
            0 <= i < 2 * N_FREQ && i != 1 && i != 2 * N_FREQ - 1 ==> #[trigger] x[i] == y[i],
        stream::real_ended_is(x, spectrum),
    ensures
        stream::real_ended_is(y, spectrum),
{
    assert forall|f: int| 0 <= f < N_FREQ implies (#[trigger] spectrum[f]).re == y[2 * f] by {
        assert(x[2 * f] == y[2 * f]);
    }
    assert forall|f: int| 0 < f < N_FREQ - 1 implies (#[trigger] spectrum[f]).im == y[2 * f
        + 1] by {
        assert(x[2 * f + 1] == y[2 * f + 1]);
    }
}

proof fn lemma_frame_ends<S: Sample, F: Fourier<S>>(
    fourier: &F,
    window: Seq<S>,
    x: Seq<S>,
    y: Seq<S>,
    frame: Seq<S>,
)
    requires
        forall|i: int|
            0 <= i < 2 * N_FREQ && i != 1 && i != 2 * N_FREQ - 1 ==> #[trigger] x[i] == y[i],
        stream::enhanced_frame_is(fourier, window, x, frame),
    ensures
        stream::enhanced_frame_is(fourier, window, y, frame),
{
    let spectrum = choose|spectrum: Seq<Complex<S>>|
        stream::real_ended_is(x, spectrum) && #[trigger] stream::frame_is(
            fourier,
            window,
            spectrum,
            frame,
        );
    lemma_real_ends(x, y, spectrum);
}

// Whole signals.

proof fn lemma_hops_agree<S: Sample>(
    samples: Seq<S>,
    silence: Seq<S>,
    pos: int,
    a: Seq<S>,
    b: Seq<S>,
)
    requires
        sample::has_one_value::<S>(),
        sample::silence(silence, silence.len() as int),
        0 <= pos,
        stream::hop_is(samples, pos, a),
        stream::hop_is(samples + silence, pos, b),
    ensures
        a == b,
{
    assert forall|i: int| 0 <= i < HOP implies a[i] == b[i] by {
        if pos + i >= samples.len() {
            assert(sample::is_zero(a[i]));
            if pos + i < samples.len() + silence.len() {
                assert(b[i] == (samples + silence)[pos + i]);
                assert(sample::is_zero(silence[pos + i - samples.len()]));
            }
            assert(sample::is_zero(b[i]));
        } else {
            assert(b[i] == (samples + silence)[pos + i]);
        }
    }
    assert(a =~= b);
}

proof fn lemma_plays_alike<S: Sample, M: Model<S>, F: Fourier<S>>(
    fourier: &F,
    samples: Seq<S>,
    silence: Seq<S>,
    models_a: Seq<M>,
    a: Seq<GtcrnStream<S, M::Cache>>,
    outs_a: Seq<[S; HOP]>,
    models_b: Seq<M>,
    b: Seq<GtcrnStream<S, M::Cache>>,
    outs_b: Seq<[S; HOP]>,
    n: int,
)
    requires
        sample::has_one_value::<S>(),
        fourier::has_one_outcome(fourier),
        answers_alike::<S, M>(),
        sample::silence(silence, silence.len() as int),
        stream::plays(fourier, samples, models_a, a, outs_a),
        stream::plays(fourier, samples + silence, models_b, b, outs_b),
        0 <= n <= outs_a.len(),
        n <= outs_b.len(),
    ensures
        streams_alike(a[n], b[n]),
        forall|k: int| 0 <= k < n ==> (#[trigger] outs_a[k])@ == (#[trigger] outs_b[k])@,
    decreases n,
{
    if n == 0 {
        fresh_streams_are_alike(models_a[0], a[0], models_b[0], b[0]);
    } else {
        let k = n - 1;
        lemma_plays_alike(
            fourier,
            samples,
            silence,
            models_a,
            a,
            outs_a,
            models_b,
            b,
            outs_b,
            k,
        );
        let out_a = Ok::<[S; HOP], M::Error>(outs_a[k]);
        let out_b = Ok::<[S; HOP], M::Error>(outs_b[k]);
        assert(stream::plays_hop(
            fourier,
            samples,
            k,
            models_a[k],
            a[k],
            models_a[k + 1],
            a[k + 1],
            out_a,
        ));
        assert(stream::plays_hop(
            fourier,
            samples + silence,
            k,
            models_b[k],
            b[k],
            models_b[k + 1],
            b[k + 1],
            out_b,
        ));
        let hop_a = choose|hop: Seq<S>|
            {
                &&& stream::hop_is(samples, k * HOP, hop)
                &&& #[trigger] a[k].processes(
                    models_a[k],
                    fourier,
                    hop,
                    &a[k + 1],
                    models_a[k + 1],
                    out_a,
                )
            };
        let hop_b = choose|hop: Seq<S>|
            {
                &&& stream::hop_is(samples + silence, k * HOP, hop)
                &&& #[trigger] b[k].processes(
                    models_b[k],
                    fourier,
                    hop,
                    &b[k + 1],
                    models_b[k + 1],
                    out_b,
                )
            };
        lemma_hops_agree(samples, silence, k * HOP, hop_a, hop_b);
        like_streams_process_alike(
            fourier,
            hop_a,
            models_a[k],
            a[k],
            models_a[k + 1],
            a[k + 1],
            out_a,
            models_b[k],
            b[k],
            models_b[k + 1],
            b[k + 1],
            out_b,
        );
    }
}

proof fn lemma_joined_prefix<S>(a: Seq<[S; HOP]>, b: Seq<[S; HOP]>, n: int)
    requires
        0 <= n <= a.len(),
        n <= b.len(),
        forall|k: int| 0 <= k < n ==> (#[trigger] a[k])@ == (#[trigger] b[k])@,
    ensures
        stream::joined(a.take(n)) == stream::joined(b.take(n)),
    decreases n,
{
    if n > 0 {
        lemma_joined_prefix(a, b, n - 1);
        assert(a.take(n).drop_last() == a.take(n - 1));
        assert(b.take(n).drop_last() == b.take(n - 1));
        assert(a[n - 1]@ == b[n - 1]@);
    }
}

proof fn lemma_joined_take<S>(a: Seq<[S; HOP]>, n: int, i: int)
    requires
        0 <= n <= a.len(),
        0 <= i < n * HOP,
    ensures
        i < stream::joined(a).len(),
        stream::joined(a)[i] == stream::joined(a.take(n))[i],
    decreases a.len(),
{
    stream::joined_len(a);
    stream::joined_len(a.take(n));
    if n == a.len() {
        assert(a.take(n) == a);
    } else {
        lemma_joined_take(a.drop_last(), n, i);
        assert(a.drop_last().take(n) == a.take(n));
    }
}

/// Silence behind a signal leaves the enhanced signal as it is.
pub proof fn appended_silence_changes_nothing<S: Sample, M: Model<S>, F: Fourier<S>>(
    fourier: &F,
    model_a: M,
    model_b: M,
    samples: Seq<S>,
    silence: Seq<S>,
    a: Seq<S>,
    b: Seq<S>,
)
    requires
        sample::has_one_value::<S>(),
        fourier::has_one_outcome(fourier),
        answers_alike::<S, M>(),
        sample::silence(silence, silence.len() as int),
        stream::enhances_to(model_a, fourier, samples, a),
        stream::enhances_to(model_b, fourier, samples + silence, b),
    ensures
        b.take(samples.len() as int) == a,
{
    let len = samples.len() as int;
    let (models_a, streams_a, outs_a) = choose|
        models: Seq<M>,
        streams: Seq<GtcrnStream<S, M::Cache>>,
        outs: Seq<[S; HOP]>,
    |
        {
            &&& #[trigger] stream::plays(fourier, samples, models, streams, outs)
            &&& models[0] == model_a
            &&& outs.len() == stream::frame_count(len)
            &&& a == stream::joined(outs).subrange(HOP as int, HOP + len)
        };
    let (models_b, streams_b, outs_b) = choose|
        models: Seq<M>,
        streams: Seq<GtcrnStream<S, M::Cache>>,
        outs: Seq<[S; HOP]>,
    |
        {
            &&& #[trigger] stream::plays(fourier, samples + silence, models, streams, outs)
            &&& models[0] == model_b
            &&& outs.len() == stream::frame_count((samples + silence).len() as int)
            &&& b == stream::joined(outs).subrange(HOP as int, HOP + (samples + silence).len())
        };
    let n = outs_a.len() as int;
    lemma_plays_alike(
        fourier,
        samples,
        silence,
        models_a,
        streams_a,
        outs_a,
        models_b,
        streams_b,
        outs_b,
        n,
    );
    lemma_joined_prefix(outs_a, outs_b, n);
    stream::joined_len(outs_a);
    stream::joined_len(outs_b);
    assert(a.len() == len);
    assert(b.len() == len + silence.len());
    assert forall|i: int| 0 <= i < len implies a[i] == b[i] by {
        lemma_joined_take(outs_a, n, HOP + i);
        lemma_joined_take(outs_b, n, HOP + i);
    }
    assert(b.take(len) =~= a);
}

} // verus!
