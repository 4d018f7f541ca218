//! What a stream starts with, and what a model is fed with.
use vstd::prelude::*;

use crate::bands;
use crate::complex;
use crate::complex::Complex;
use crate::erb;
use crate::features;
use crate::laws::averages;
use crate::laws::by_band;
use crate::laws::layout;
use crate::laws::numbers;
use crate::laws::numbers::Numbers;
use crate::laws::windows;
use crate::norm;
use crate::sample;
use crate::sample::{Sample, Wider};
use crate::state::DFState;

verus! {

proof fn lemma_ramp<S: Sample>(n: Numbers<S>, first: S, last: S, len: usize, r: Seq<S>, i: int)
    requires
        n.calculate(),
        features::ramp_is(first, last, len, r),
        len > 1,
        0 <= i < len,
    ensures
        ((n.value)(r[i]) - (n.value)(first)) * (len - 1) as real == (i as real) * ((n.value)(last)
            - (n.value)(first)),
{
    let (span, count, step) = choose|span: S, count: S, step: S|
        {
            &&& #[trigger] sample::subtracts(last, first, span)
            &&& #[trigger] sample::is_count((len - 1) as usize, count)
            &&& #[trigger] sample::divides(span, count, step)
            &&& forall|i: int|
                0 <= i < len ==> features::ramp_step_is(first, step, i as usize, #[trigger] r[i])
        };
    assert(features::ramp_step_is(first, step, i as usize, r[i]));
    let (place, rise) = choose|count: S, rise: S|
        {
            &&& #[trigger] sample::is_count(i as usize, count)
            &&& #[trigger] sample::multiplies(count, step, rise)
            &&& sample::adds(first, rise, r[i])
        };
    let vs = (n.value)(step);
    let vi = i as real;
    let vl = (len - 1) as real;
    let vspan = (n.value)(span);
    assert((vi * vs) * vl == vi * vspan) by (nonlinear_arith)
        requires
            vs * vl == vspan,
    ;
}

/// A ramp leads from its first value to its last in equal steps.
pub proof fn ramp_leads_from_first_to_last<S: Sample>(
    n: Numbers<S>,
    first: S,
    last: S,
    len: usize,
    r: Vec<S>,
    i: int,
)
    requires
        n.calculate(),
        len > 1,
        call_ensures(features::ramp::<S>, (first, last, len), r),
        0 <= i < len,
    ensures
        r@.len() == len,
        ((n.value)(r@[i]) - (n.value)(first)) * (len - 1) as real == (i as real) * ((n.value)(last)
            - (n.value)(first)),
        (n.value)(r@[0]) == (n.value)(first),
        (n.value)(r@[len - 1]) == (n.value)(last),
{
    lemma_ramp(n, first, last, len, r@, i);
    lemma_ramp(n, first, last, len, r@, 0);
    lemma_ramp(n, first, last, len, r@, len - 1);
    let vl = (len - 1) as real;
    let (a, b, f, l) = (
        (n.value)(r@[0]),
        (n.value)(r@[len - 1]),
        (n.value)(first),
        (n.value)(last),
    );
    assert(a == f) by (nonlinear_arith)
        requires
            (a - f) * vl == 0real * (l - f),
            vl > 0real,
    ;
    assert(b == l) by (nonlinear_arith)
        requires
            (b - f) * vl == vl * (l - f),
            vl > 0real,
    ;
}

/// A ramp of one value is its first value and no step, where the whole way to the last value is to
/// be shared among no steps.
pub proof fn ramp_of_one_has_no_steps<S: Sample>(first: S, last: S, r: Vec<S>)
    requires
        call_ensures(features::ramp::<S>, (first, last, 1usize), r),
    ensures
        r@.len() == 1,
        exists|span: S, count: S, step: S, place: S, rise: S|
            {
                &&& #[trigger] sample::subtracts(last, first, span)
                &&& sample::is_count(0, count)
                &&& #[trigger] sample::divides(span, count, step)
                &&& sample::is_count(0, place)
                &&& #[trigger] sample::multiplies(place, step, rise)
                &&& sample::adds(first, rise, r@[0])
            },
{
    let (span, count, step) = choose|span: S, count: S, step: S|
        {
            &&& #[trigger] sample::subtracts(last, first, span)
            &&& #[trigger] sample::is_count(0usize, count)
            &&& #[trigger] sample::divides(span, count, step)
            &&& forall|i: int|
                0 <= i < 1 ==> features::ramp_step_is(first, step, i as usize, #[trigger] r@[i])
        };
    assert(features::ramp_step_is(first, step, 0, r@[0]));
}

proof fn lemma_level_start<S: Sample>(n: Numbers<S>, len: usize, r: Seq<S>, i: int)
    requires
        n.calculate(),
        features::mean_norm_init_is(len, r),
        len > 1,
        0 <= i < len,
    ensures
        ((n.value)(r[i]) + 60real) * (len - 1) as real == -30real * (i as real),
{
    let (first, last) = choose|first: S, last: S|
        {
            &&& sample::is_decimal((-60i64) as i64, 0, first)
            &&& sample::is_decimal((-90i64) as i64, 0, last)
            &&& #[trigger] features::ramp_is(first, last, len, r)
        };
    reveal_with_fuel(numbers::ten_to, 2);
    let (f, l) = ((n.value)(first), (n.value)(last));
    assert(f == -60real && l == -90real) by (nonlinear_arith)
        requires
            f * 1real == -60real,
            l * 1real == -90real,
    ;
    lemma_ramp(n, first, last, len, r, i);
    let vi = i as real;
    assert(vi * (l - f) == -30real * vi) by (nonlinear_arith)
        requires
            l - f == -30real,
    ;
}

proof fn lemma_magnitude_start<S: Sample>(n: Numbers<S>, len: usize, r: Seq<S>, i: int)
    requires
        n.calculate(),
        features::unit_norm_init_is(len, r),
        len > 1,
        0 <= i < len,
    ensures
        (10000real * (n.value)(r[i]) - 10real) * (len - 1) as real == -9real * (i as real),
{
    let (first, last) = choose|first: S, last: S|
        {
            &&& sample::is_decimal(1, 3, first)
            &&& sample::is_decimal(1, 4, last)
            &&& #[trigger] features::ramp_is(first, last, len, r)
        };
    reveal_with_fuel(numbers::ten_to, 6);
    assert(numbers::ten_to(3) == 1000real);
    assert(numbers::ten_to(4) == 10000real);
    let (f, l) = ((n.value)(first), (n.value)(last));
    assert(10000real * f == 10real && 10000real * l == 1real) by (nonlinear_arith)
        requires
            f * 1000real == 1real,
            l * 10000real == 1real,
    ;
    lemma_ramp(n, first, last, len, r, i);
    let vi = i as real;
    let vl = (len - 1) as real;
    let v = (n.value)(r[i]);
    assert((10000real * v - 10real) * vl == -9real * vi) by (nonlinear_arith)
        requires
            (v - f) * vl == vi * (l - f),
            10000real * f == 10real,
            10000real * l == 1real,
    ;
}

/// The averages of band levels start out from -60 decibels at the lowest band to -90 at the
/// highest, and those of bin magnitudes from 0.001 at the lowest bin to 0.0001 at the highest, each
/// in equal steps.
pub proof fn averages_start_out_on_ramps<S: Sample>(
    n: Numbers<S>,
    s: &mut DFState<S>,
    nb_df_freqs: usize,
    b: int,
    i: int,
)
    requires
        n.calculate(),
        old(s).erb@.len() > 1,
        nb_df_freqs > 1,
        call_ensures(DFState::<S>::init_norm_states, (s, nb_df_freqs), ()),
        0 <= b < old(s).erb@.len(),
        0 <= i < nb_df_freqs,
    ensures
        final(s).mean_norm_state@.len() == old(s).erb@.len(),
        final(s).unit_norm_state@.len() == nb_df_freqs,
        ((n.value)(final(s).mean_norm_state@[b]) + 60real) * (old(s).erb@.len() - 1) as real
            == -30real * (b as real),
        (10000real * (n.value)(final(s).unit_norm_state@[i]) - 10real) * (nb_df_freqs - 1) as real
            == -9real * (i as real),
        final(s).analysis_mem@ == old(s).analysis_mem@,
        final(s).synthesis_mem@ == old(s).synthesis_mem@,
{
    lemma_level_start(n, old(s).erb.len(), final(s).mean_norm_state@, b);
    lemma_magnitude_start(n, nb_df_freqs, final(s).unit_norm_state@, i);
}

/// The same of the averages of band levels alone.
pub proof fn level_averages_start_out_on_a_ramp<S: Sample>(
    n: Numbers<S>,
    s: &mut DFState<S>,
    b: int,
)
    requires
        n.calculate(),
        old(s).erb@.len() > 1,
        call_ensures(DFState::<S>::init_mean_norm_state, (s,), ()),
        0 <= b < old(s).erb@.len(),
    ensures
        final(s).mean_norm_state@.len() == old(s).erb@.len(),
        ((n.value)(final(s).mean_norm_state@[b]) + 60real) * (old(s).erb@.len() - 1) as real
            == -30real * (b as real),
        final(s).unit_norm_state@ == old(s).unit_norm_state@,
{
    lemma_level_start(n, old(s).erb.len(), final(s).mean_norm_state@, b);
}

/// The same of the averages of bin magnitudes alone.
pub proof fn magnitude_averages_start_out_on_a_ramp<S: Sample>(
    n: Numbers<S>,
    s: &mut DFState<S>,
    nb_freqs: usize,
    i: int,
)
    requires
        n.calculate(),
        nb_freqs > 1,
        call_ensures(DFState::<S>::init_unit_norm_state, (s, nb_freqs), ()),
        0 <= i < nb_freqs,
    ensures
        final(s).unit_norm_state@.len() == nb_freqs,
        (10000real * (n.value)(final(s).unit_norm_state@[i]) - 10real) * (nb_freqs - 1) as real
            == -9real * (i as real),
        final(s).mean_norm_state@ == old(s).mean_norm_state@,
{
    lemma_magnitude_start(n, nb_freqs, final(s).unit_norm_state@, i);
}

/// The stream that the models are made for takes in 480 samples at a time at 48 kHz, sees 960 of
/// them through its window, and has 32 bands over its 481 bins.
pub proof fn models_get_their_stream<S: Sample, W: Wider<S>>(
    n: Numbers<S>,
    r: Option<DFState<S>>,
)
    requires
        n.calculate(),
        call_ensures(DFState::<S>::with_defaults::<W>, (), r),
        r is Some,
    ensures
        r->Some_0.sr == 48000,
        r->Some_0.frame_size == 480,
        r->Some_0.window_size == 960,
        r->Some_0.freq_size == 481,
        r->Some_0.erb@.len() == 32,
        erb::band_start(r->Some_0.erb@, 32) == 481,
        (n.value)(r->Some_0.wnorm) * 960real == 1real,
{
    let state = r->Some_0;
    windows::lemma_wnorm(n, 960, 480, state.wnorm);
    let v = (n.value)(state.wnorm);
    assert(v * 960real == 1real) by (nonlinear_arith)
        requires
            v * (960real * 960real) == 2real * 480real,
    ;
    let layout = choose|erb: Option<Vec<usize>>|
        {
            &&& #[trigger] erb::erb_fb_is::<S>(48000, 960, 32, 2, erb)
            &&& r is Some <==> erb is Some
            &&& r matches Some(state) ==> erb == Some(state.erb)
        };
    let edges = choose|edges: Seq<usize>|
        {
            &&& #[trigger] erb::erb_edges_are::<S>(48000, 960, 32, edges)
            &&& layout is Some <==> erb::layout_exists(edges, 960, erb::low_word(2))
            &&& layout matches Some(widths) ==> widths@ == erb::layout(
                edges,
                960,
                erb::low_word(2),
            )
        };
    assert(edges.len() == 32);
}

/// The bands of a stream are laid out by the edges for its sample rate, window and number of bands,
/// each of at least the width that is asked for; there is no stream exactly if they have no layout.
pub proof fn streams_have_the_bands_that_are_asked_for<S: Sample, W: Wider<S>>(
    sr: usize,
    fft_size: usize,
    hop_size: usize,
    nb_bands: usize,
    min_nb_freqs: usize,
    r: Option<DFState<S>>,
)
    requires
        hop_size * 2 <= fft_size,
        fft_size * fft_size <= usize::MAX,
        min_nb_freqs <= i32::MAX,
        call_ensures(
            DFState::<S>::new::<W>,
            (sr, fft_size, hop_size, nb_bands, min_nb_freqs),
            r,
        ),
    ensures
        nb_bands == 0 ==> r is None,
        r is None ==> exists|edges: Seq<usize>|
            {
                &&& #[trigger] erb::erb_edges_are::<S>(sr, fft_size, nb_bands, edges)
                &&& edges.len() == nb_bands
                &&& forall|ends: Seq<int>|
                    nb_bands > 0 && layout::small(edges, min_nb_freqs)
                        && #[trigger] layout::ends_are(edges, min_nb_freqs as int, ends)
                        && ends.last() < i32::MAX ==> !(ends[nb_bands - 1] <= fft_size as int / 2
                        + 1 <= ends.last() + 1)
            },
        r is Some ==> exists|edges: Seq<usize>|
            {
                &&& #[trigger] erb::erb_edges_are::<S>(sr, fft_size, nb_bands, edges)
                &&& edges.len() == nb_bands
                &&& r->Some_0.erb@.len() == nb_bands
                &&& erb::band_start(r->Some_0.erb@, nb_bands as int) == fft_size as int / 2 + 1
                &&& forall|b: int|
                    0 <= b < nb_bands - 1 && layout::small(edges, min_nb_freqs) ==> #[trigger] (
                    erb::band_start(r->Some_0.erb@, b + 1)) == (if edges[b] >= erb::band_start(
                        r->Some_0.erb@,
                        b,
                    ) + min_nb_freqs {
                        edges[b] as int
                    } else {
                        erb::band_start(r->Some_0.erb@, b) + min_nb_freqs
                    })
            },
{
    let layout = choose|erb: Option<Vec<usize>>|
        {
            &&& #[trigger] erb::erb_fb_is::<S>(sr, fft_size, nb_bands, min_nb_freqs, erb)
            &&& r is Some <==> erb is Some
            &&& r matches Some(state) ==> erb == Some(state.erb)
        };
    layout::lemma_laid_out::<S>(sr, fft_size, nb_bands, min_nb_freqs, layout);
}

/// The stream that the models are made for has 32 bands of at least two bins.
pub proof fn models_get_thirty_two_bands<S: Sample, W: Wider<S>>(r: Option<DFState<S>>)
    requires
        call_ensures(DFState::<S>::with_defaults::<W>, (), r),
    ensures
        r is None ==> exists|edges: Seq<usize>|
            {
                &&& #[trigger] erb::erb_edges_are::<S>(48000, 960, 32, edges)
                &&& edges.len() == 32
                &&& forall|ends: Seq<int>|
                    layout::small(edges, 2) && #[trigger] layout::ends_are(edges, 2, ends)
                        && ends.last() < i32::MAX ==> !(ends[31] <= 481 <= ends.last() + 1)
            },
        r is Some ==> exists|edges: Seq<usize>|
            {
                &&& #[trigger] erb::erb_edges_are::<S>(48000, 960, 32, edges)
                &&& edges.len() == 32
                &&& r->Some_0.erb@.len() == 32
                &&& erb::band_start(r->Some_0.erb@, 32) == 481
                &&& forall|b: int|
                    0 <= b < 31 && layout::small(edges, 2) ==> #[trigger] erb::band_start(
                        r->Some_0.erb@,
                        b + 1,
                    ) == (if edges[b] >= erb::band_start(r->Some_0.erb@, b) + 2 {
                        edges[b] as int
                    } else {
                        erb::band_start(r->Some_0.erb@, b) + 2
                    })
            },
{
    let layout = choose|erb: Option<Vec<usize>>|
        {
            &&& #[trigger] erb::erb_fb_is::<S>(48000, 960, 32, 2, erb)
            &&& r is Some <==> erb is Some
            &&& r matches Some(state) ==> erb == Some(state.erb)
        };
    layout::lemma_laid_out::<S>(48000, 960, 32, 2, layout);
}

/// A stream that is reset has silence behind it, and keeps all else.
pub proof fn reset_leaves_silence<S: Sample>(n: Numbers<S>, s: &mut DFState<S>, i: int)
    requires
        n.calculate(),
        call_ensures(DFState::<S>::reset, (s,), ()),
        0 <= i,
    ensures
        final(s).analysis_mem@.len() == old(s).analysis_mem@.len(),
        final(s).synthesis_mem@.len() == old(s).synthesis_mem@.len(),
        i < old(s).analysis_mem@.len() ==> (n.value)(final(s).analysis_mem@[i]) == 0real,
        i < old(s).synthesis_mem@.len() ==> (n.value)(final(s).synthesis_mem@[i]) == 0real,
        final(s).sr == old(s).sr,
        final(s).frame_size == old(s).frame_size,
        final(s).window_size == old(s).window_size,
        final(s).freq_size == old(s).freq_size,
        final(s).window@ == old(s).window@,
        final(s).wnorm == old(s).wnorm,
        final(s).erb@ == old(s).erb@,
        final(s).mean_norm_state@ == old(s).mean_norm_state@,
        final(s).unit_norm_state@ == old(s).unit_norm_state@,
{
    assert(i < old(s).analysis_mem@.len() ==> sample::is_zero(final(s).analysis_mem@[i]));
    assert(i < old(s).synthesis_mem@.len() ==> sample::is_zero(final(s).synthesis_mem@[i]));
}

/// The feature of a band is a fortieth of what its level exceeds its average by. The level is the
/// mean power of the band's bins in decibels, and the average moves towards it.
pub proof fn band_features_are_levels_over_their_average<S: Sample>(
    n: Numbers<S>,
    s: &mut DFState<S>,
    input: &[Complex<S>],
    alpha: S,
    output: &mut [S],
    b: int,
    power: real,
)
    requires
        n.calculate(),
        n.compute_functions(),
        erb::band_start(old(s).erb@, old(s).erb@.len() as int) <= input@.len(),
        old(output)@.len() == old(s).erb@.len(),
        old(output)@.len() == old(s).mean_norm_state@.len(),
        call_ensures(DFState::<S>::feat_erb, (s, input, alpha, output), ()),
        0 <= b < old(s).erb@.len(),
        old(s).erb@[b] > 0,
        power * (old(s).erb@[b] as real) == numbers::total(
            |i: int|
                (n.value)(input@[i].re) * (n.value)(input@[i].re) + (n.value)(input@[i].im) * (
                n.value)(input@[i].im),
            erb::band_start(old(s).erb@, b),
            erb::band_start(old(s).erb@, b) + old(s).erb@[b],
        ),
    ensures
        final(output)@.len() == old(output)@.len(),
        final(s).mean_norm_state@.len() == old(s).mean_norm_state@.len(),
        ({
            let level = 10real * (n.log_10)(power + 1real / 10000000000real);
            &&& 40real * (n.value)(final(output)@[b]) + (n.value)(final(s).mean_norm_state@[b])
                == level
            &&& (n.value)(final(s).mean_norm_state@[b]) == level + (n.value)(alpha) * ((n.value)(
                old(s).mean_norm_state@[b],
            ) - level)
        }),
        final(s).unit_norm_state@ == old(s).unit_norm_state@,
        final(s).analysis_mem@ == old(s).analysis_mem@,
        final(s).synthesis_mem@ == old(s).synthesis_mem@,
{
    let lo = erb::band_start(old(s).erb@, b);
    let len = old(s).erb@[b];
    let s2 = final(s).mean_norm_state@[b];
    let out = final(output)@[b];
    assert(features::erb_feature_is(
        input@,
        lo,
        len,
        old(s).mean_norm_state@[b],
        alpha,
        s2,
        out,
    ));
    let (mean, level) = choose|power: S, level: S|
        {
            &&& #[trigger] bands::band_corr_is(input@, input@, lo, len, power)
            &&& #[trigger] features::decibels_is(power, level)
            &&& norm::mean_norm_erb_is(level, old(s).mean_norm_state@[b], alpha, s2, out)
        };
    by_band::lemma_band_mean_product(n, input@, input@, lo, len, mean);
    numbers::lemma_total_alike(
        |i: int| by_band::bin_product(n, input@[i], input@[i]),
        |i: int|
            (n.value)(input@[i].re) * (n.value)(input@[i].re) + (n.value)(input@[i].im) * (
            n.value)(input@[i].im),
        lo,
        lo + len,
    );
    let m = (n.value)(mean);
    let w = len as real;
    assert(m == power) by (nonlinear_arith)
        requires
            m * w == power * w,
            w > 0real,
    ;
    lemma_decibels(n, mean, level);
    averages::lemma_level(n, level, old(s).mean_norm_state@[b], alpha, s2, out);
}

proof fn lemma_decibels<S: Sample>(n: Numbers<S>, power: S, level: S)
    requires
        n.calculate(),
        n.compute_functions(),
        features::decibels_is(power, level),
    ensures
        (n.value)(level) == 10real * (n.log_10)((n.value)(power) + 1real / 10000000000real),
{
    let (floor, raised, log, ten) = choose|floor: S, raised: S, log: S, ten: S|
        {
            &&& #[trigger] sample::is_decimal(1, 10, floor)
            &&& #[trigger] sample::adds(power, floor, raised)
            &&& #[trigger] call_ensures(S::log_ten, (raised,), log)
            &&& #[trigger] sample::is_decimal(10, 0, ten)
            &&& sample::multiplies(log, ten, level)
        };
    reveal_with_fuel(numbers::ten_to, 12);
    assert(numbers::ten_to(10) == 10000000000real);
    let (f, t, g) = ((n.value)(floor), (n.value)(ten), (n.value)(log));
    assert(f == 1real / 10000000000real && t == 10real) by (nonlinear_arith)
        requires
            f * 10000000000real == 1real,
            t * 1real == 10real,
    ;
    assert(g * t == 10real * g) by (nonlinear_arith)
        requires
            t == 10real,
    ;
}

/// The features of bins are the bins, divided by the roots of the averages of their magnitudes.
pub proof fn bin_features_are_divided_by_roots<S: Sample>(
    n: Numbers<S>,
    s: &mut DFState<S>,
    input: &[Complex<S>],
    alpha: S,
    output: &mut [Complex<S>],
    i: int,
)
    requires
        n.calculate(),
        n.take_roots(),
        old(output)@.len() == input@.len(),
        old(s).unit_norm_state@.len() == input@.len(),
        call_ensures(DFState::<S>::feat_cplx, (s, input, alpha, output), ()),
        0 <= i < input@.len(),
    ensures
        final(output)@.len() == input@.len(),
        final(s).unit_norm_state@.len() == input@.len(),
        exists|size: real|
            {
                &&& size >= 0real
                &&& #[trigger] numbers::square(size) == (n.value)(input@[i].re) * (n.value)(
                    input@[i].re,
                ) + (n.value)(input@[i].im) * (n.value)(input@[i].im)
                &&& (n.value)(final(s).unit_norm_state@[i]) == size + (n.value)(alpha) * ((
                n.value)(old(s).unit_norm_state@[i]) - size)
            },
        (n.value)(final(s).unit_norm_state@[i]) > 0real ==> exists|root: real|
            {
                &&& root > 0real
                &&& #[trigger] numbers::square(root) == (n.value)(final(s).unit_norm_state@[i])
                &&& (n.value)(final(output)@[i].re) * root == (n.value)(input@[i].re)
                &&& (n.value)(final(output)@[i].im) * root == (n.value)(input@[i].im)
            },
        exists|root: S|
            {
                &&& #[trigger] sample::roots(final(s).unit_norm_state@[i], root)
                &&& sample::divides(input@[i].re, root, final(output)@[i].re)
                &&& sample::divides(input@[i].im, root, final(output)@[i].im)
            },
        final(s).mean_norm_state@ == old(s).mean_norm_state@,
        final(s).analysis_mem@ == old(s).analysis_mem@,
        final(s).synthesis_mem@ == old(s).synthesis_mem@,
{
    let s2 = final(s).unit_norm_state@[i];
    assert(norm::unit_norm_is(
        input@[i],
        old(s).unit_norm_state@[i],
        alpha,
        s2,
        final(output)@[i],
    ));
    averages::lemma_bin(
        n,
        input@[i],
        old(s).unit_norm_state@[i],
        alpha,
        s2,
        final(output)@[i],
    );
}

/// The transposed features are the same, all real parts before all imaginary parts.
pub proof fn transposed_features_are_divided_by_roots<S: Sample>(
    n: Numbers<S>,
    s: &mut DFState<S>,
    input: &[Complex<S>],
    alpha: S,
    output: &mut [S],
    i: int,
)
    requires
        n.calculate(),
        n.take_roots(),
        old(output)@.len() / 2 == input@.len(),
        old(s).unit_norm_state@.len() == input@.len(),
        call_ensures(DFState::<S>::feat_cplx_t, (s, input, alpha, output), ()),
        0 <= i < input@.len(),
    ensures
        final(output)@.len() == old(output)@.len(),
        final(s).unit_norm_state@.len() == input@.len(),
        exists|size: real|
            {
                &&& size >= 0real
                &&& #[trigger] numbers::square(size) == (n.value)(input@[i].re) * (n.value)(
                    input@[i].re,
                ) + (n.value)(input@[i].im) * (n.value)(input@[i].im)
                &&& (n.value)(final(s).unit_norm_state@[i]) == size + (n.value)(alpha) * ((
                n.value)(old(s).unit_norm_state@[i]) - size)
            },
        (n.value)(final(s).unit_norm_state@[i]) > 0real ==> exists|root: real|
            {
                &&& root > 0real
                &&& #[trigger] numbers::square(root) == (n.value)(final(s).unit_norm_state@[i])
                &&& (n.value)(final(output)@[i]) * root == (n.value)(input@[i].re)
                &&& (n.value)(final(output)@[input@.len() + i]) * root == (n.value)(input@[i].im)
            },
        exists|root: S|
            {
                &&& #[trigger] sample::roots(final(s).unit_norm_state@[i], root)
                &&& sample::divides(input@[i].re, root, final(output)@[i])
                &&& sample::divides(input@[i].im, root, final(output)@[input@.len() + i])
            },
        forall|j: int|
            2 * input@.len() <= j < old(output)@.len() ==> final(output)@[j] == old(output)@[j],
        final(s).mean_norm_state@ == old(s).mean_norm_state@,
        final(s).analysis_mem@ == old(s).analysis_mem@,
        final(s).synthesis_mem@ == old(s).synthesis_mem@,
{
    let s2 = final(s).unit_norm_state@[i];
    let bin = norm::transposed_bin(final(output)@, input@.len() as int, i);
    assert(norm::unit_norm_is(input@[i], old(s).unit_norm_state@[i], alpha, s2, bin));
    averages::lemma_bin(n, input@[i], old(s).unit_norm_state@[i], alpha, s2, bin);
}

/// A mask multiplies every bin by the gain of its band; bins in no band with a gain stay.
pub proof fn mask_multiplies_by_the_gain_of_the_band<S: Sample>(
    n: Numbers<S>,
    s: &DFState<S>,
    output: &mut [Complex<S>],
    gains: &[S],
    b: int,
    i: int,
)
    requires
        n.calculate(),
        erb::band_start(s.erb@, bands::common_len(s.erb@.len(), gains@.len())) <= old(
            output,
        )@.len(),
        call_ensures(DFState::<S>::apply_mask, (s, output, gains), ()),
        0 <= i < old(output)@.len(),
        0 <= b,
    ensures
        final(output)@.len() == old(output)@.len(),
        b < s.erb@.len() && b < gains@.len() && erb::band_start(s.erb@, b) <= i < erb::band_start(
            s.erb@,
            b,
        ) + s.erb@[b] ==> {
            &&& (n.value)(final(output)@[i].re) == (n.value)(old(output)@[i].re) * (n.value)(
                gains@[b],
            )
            &&& (n.value)(final(output)@[i].im) == (n.value)(old(output)@[i].im) * (n.value)(
                gains@[b],
            )
        },
        (forall|c: int|
            0 <= c < s.erb@.len() && c < gains@.len() ==> !(#[trigger] erb::band_start(s.erb@, c)
                <= i < erb::band_start(s.erb@, c) + s.erb@[c])) ==> final(output)@[i] == old(
            output,
        )@[i],
{
    let k = bands::common_len(s.erb@.len(), gains@.len());
    if b < s.erb@.len() && b < gains@.len() && erb::band_start(s.erb@, b) <= i < erb::band_start(
        s.erb@,
        b,
    ) + s.erb@[b] {
        assert(erb::in_band(s.erb@, b, i));
        assert(complex::complex_scales(old(output)@[i], gains@[b], final(output)@[i]));
    }
    if i < erb::band_start(s.erb@, k) {
        erb::bands_leave_no_gap(s.erb@, k, i);
        let c = choose|c: int| 0 <= c < k && erb::in_band(s.erb@, c, i);
        assert(erb::in_band(s.erb@, c, i));
        assert(erb::band_start(s.erb@, c) <= i < erb::band_start(s.erb@, c) + s.erb@[c]);
    } else {
        assert(final(output)@[i] == old(output)@[i]);
    }
}

} // verus!
