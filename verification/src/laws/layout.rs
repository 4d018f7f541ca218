//! How bands are laid over the bins of a transform.
use vstd::prelude::*;

use crate::erb;
use crate::laws::numbers;
use crate::laws::numbers::Numbers;
use crate::sample;
use crate::sample::Sample;

verus! {

/// The counts that the band arithmetic is meant for: those of 31 bits.
pub open spec fn small(edges: Seq<usize>, least: usize) -> bool {
    &&& least <= i32::MAX
    &&& forall|i: int| 0 <= i < edges.len() ==> #[trigger] edges[i] <= i32::MAX
}

/// `ends` holds where bands end one after the other, the first at zero: each at its own edge, but
/// at least the least width after the one before.
pub open spec fn ends_are(edges: Seq<usize>, least: int, ends: Seq<int>) -> bool {
    &&& ends.len() == edges.len() + 1
    &&& ends[0] == 0
    &&& forall|b: int|
        0 <= b < edges.len() ==> #[trigger] ends[b + 1] == (if edges[b] >= ends[b] + least {
            edges[b] as int
        } else {
            ends[b] + least
        })
}

proof fn lemma_low_word(n: usize)
    requires
        n <= i32::MAX,
    ensures
        erb::low_word(n) == n,
{
}

proof fn lemma_lower_edge(edges: Seq<usize>, least: usize, b: int)
    requires
        small(edges, least),
        0 <= b <= edges.len(),
    ensures
        0 <= erb::lower_edge(edges, b) <= i32::MAX,
        b > 0 ==> erb::lower_edge(edges, b) == edges[b - 1],
{
    if b > 0 {
        lemma_low_word(edges[b - 1]);
    }
}

/// Up to any band, what bands ask for adds up to where they end.
proof fn lemma_asked_ends(edges: Seq<usize>, least: usize, ends: Seq<int>, b: int)
    requires
        small(edges, least),
        ends_are(edges, least as int, ends),
        0 <= b <= edges.len(),
        ends[b] <= i32::MAX,
    ensures
        0 <= ends[b],
        erb::band_start(erb::asked_widths(edges, least as int), b) == ends[b],
        erb::borrowed(edges, least as int, b) == ends[b] - erb::lower_edge(edges, b),
        erb::borrowed(edges, least as int, b) >= 0,
        forall|c: int| 0 <= c < b ==> ends[c] <= ends[b],
        forall|c: int| 0 <= c < b ==> #[trigger] erb::band_in_word(edges, least as int, c),
        forall|c: int|
            0 <= c < b ==> #[trigger] erb::asked_width(edges, least as int, c) == ends[c + 1]
                - ends[c],
    decreases b,
{
    if b > 0 {
        let c = b - 1;
        assert(ends[c + 1] == (if edges[c] >= ends[c] + least {
            edges[c] as int
        } else {
            ends[c] + least
        }));
        lemma_asked_ends(edges, least, ends, c);
        lemma_low_word(edges[c]);
        lemma_lower_edge(edges, least, c);
        lemma_lower_edge(edges, least, b);
        assert(erb::own_bins(edges, least as int, c) == edges[c] - ends[c]);
        assert(erb::asked_width(edges, least as int, c) == ends[b] - ends[c]);
        assert(erb::band_in_word(edges, least as int, c));
    }
}

/// In a layout, every band but the last ends at its own upper edge, unless that leaves it less
/// than the least width; then it ends at its start plus the least width. The last band ends at the
/// last bin.
pub proof fn bands_end_at_their_edges(
    edges: &[usize],
    fft_size: usize,
    min_nb_freqs: usize,
    r: Option<Vec<usize>>,
    b: int,
)
    requires
        small(edges@, min_nb_freqs),
        call_ensures(erb::band_widths, (edges, fft_size, min_nb_freqs), r),
        r is Some,
        0 <= b < edges@.len() - 1,
    ensures
        r->Some_0@.len() == edges@.len(),
        ({
            let start = erb::band_start(r->Some_0@, b);
            erb::band_start(r->Some_0@, b + 1) == (if edges@[b] >= start + min_nb_freqs {
                edges@[b] as int
            } else {
                start + min_nb_freqs
            })
        }),
        erb::band_start(r->Some_0@, edges@.len() as int) == fft_size as int / 2 + 1,
{
    lemma_low_word(min_nb_freqs);
    erb::layout_covers_the_spectrum(edges@, fft_size, erb::low_word(min_nb_freqs));
    lemma_ends_at_edge(edges@, fft_size, min_nb_freqs, b);
}

proof fn lemma_ends_at_edge(edges: Seq<usize>, fft_size: usize, min_nb_freqs: usize, b: int)
    requires
        small(edges, min_nb_freqs),
        erb::layout_exists(edges, fft_size, erb::low_word(min_nb_freqs)),
        0 <= b < edges.len() - 1,
    ensures
        ({
            let w = erb::layout(edges, fft_size, erb::low_word(min_nb_freqs));
            let start = erb::band_start(w, b);
            erb::band_start(w, b + 1) == (if edges[b] >= start + min_nb_freqs {
                edges[b] as int
            } else {
                start + min_nb_freqs
            })
        }),
{
    lemma_low_word(min_nb_freqs);
    let least = erb::low_word(min_nb_freqs);
    let w = erb::layout(edges, fft_size, least);
    let asked = erb::asked_widths(edges, least);
    erb::lemma_band_start_prefix(w, asked, b);
    erb::lemma_band_start_prefix(w, asked, b + 1);
    erb::borrowed_bins_are_given_back(edges, fft_size, least, b);
    assert(erb::band_in_word(edges, least, b));
    lemma_low_word(edges[b]);
    lemma_lower_edge(edges, min_nb_freqs, b);
}

/// A single band takes all bins.
pub proof fn single_band_takes_all_bins(
    edges: &[usize],
    fft_size: usize,
    min_nb_freqs: usize,
    r: Option<Vec<usize>>,
)
    requires
        call_ensures(erb::band_widths, (edges, fft_size, min_nb_freqs), r),
        r is Some,
        edges@.len() == 1,
    ensures
        r->Some_0@.len() == 1,
        r->Some_0@[0] == fft_size as int / 2 + 1,
{
    let w = r->Some_0@;
    erb::layout_covers_the_spectrum(edges@, fft_size, erb::low_word(min_nb_freqs));
    assert(erb::band_start(w, 1) == erb::band_start(w, 0) + w[0]);
}

/// There is a layout exactly if the bands reach the last bin, and those before the last do not
/// reach beyond it; without bands there is none.
pub proof fn layout_exists_if_the_bands_reach_the_last_bin(
    edges: &[usize],
    fft_size: usize,
    min_nb_freqs: usize,
    r: Option<Vec<usize>>,
    ends: Seq<int>,
)
    requires
        small(edges@, min_nb_freqs),
        call_ensures(erb::band_widths, (edges, fft_size, min_nb_freqs), r),
        ends_are(edges@, min_nb_freqs as int, ends),
        ends.last() < i32::MAX,
    ensures
        edges@.len() == 0 ==> r is None,
        edges@.len() > 0 ==> (r is Some <==> ends[edges@.len() - 1] <= fft_size as int / 2 + 1
            <= ends.last() + 1),
{
    lemma_low_word(min_nb_freqs);
    let n = edges@.len() as int;
    if n > 0 {
        lemma_asked_ends(edges@, min_nb_freqs, ends, n);
        lemma_asked_ends(edges@, min_nb_freqs, ends, n - 1);
    }
}

// The scale.

/// Where the scale bends from linear to logarithmic, in hertz.
spec fn corner() -> real {
    247real * 9265real / 10000real
}

/// The exponential function and the logarithm undo each other, and the logarithm of one is zero.
pub open spec fn logarithms_undo_exponentials<S: Sample>(n: Numbers<S>) -> bool {
    &&& (n.ln_1p)(0real) == 0real
    &&& forall|x: real| x > -1real ==> #[trigger] (n.exp)((n.ln_1p)(x)) == x + 1real
    &&& forall|x: real| (n.ln_1p)(#[trigger] (n.exp)(x) - 1real) == x
}

/// Ten to the first powers.
proof fn lemma_powers_of_ten()
    ensures
        numbers::ten_to(0) == 1real,
        numbers::ten_to(1) == 10real,
        numbers::ten_to(3) == 1000real,
{
    reveal_with_fuel(numbers::ten_to, 5);
    let a = numbers::ten_to(1);
    let b = numbers::ten_to(2);
    assert(a == 10real) by (nonlinear_arith)
        requires
            a == 10real * 1real,
    ;
    assert(b == 100real) by (nonlinear_arith)
        requires
            b == 10real * a,
            a == 10real,
    ;
    assert(10real * b == 1000real) by (nonlinear_arith)
        requires
            b == 100real,
    ;
}

proof fn lemma_erb_of_freq<S: Sample>(n: Numbers<S>, freq: S, r: S)
    requires
        n.calculate(),
        n.compute_functions(),
        erb::erb_of_freq_is(freq, r),
    ensures
        1000real * (n.value)(r) == 9265real * (n.ln_1p)((n.value)(freq) / corner()),
{
    lemma_powers_of_ten();
    let (q, width, q2, c, ratio, log) = choose|
        q: S,
        width: S,
        q2: S,
        corner: S,
        ratio: S,
        log: S,
    |
        {
            &&& #[trigger] sample::is_decimal(9265, 3, q)
            &&& #[trigger] sample::is_decimal(247, 1, width)
            &&& sample::is_decimal(9265, 3, q2)
            &&& #[trigger] sample::multiplies(width, q2, corner)
            &&& #[trigger] sample::divides(freq, corner, ratio)
            &&& #[trigger] call_ensures(S::log_one_plus, (ratio,), log)
            &&& sample::multiplies(q, log, r)
        };
    let vq = (n.value)(q);
    let vw = (n.value)(width);
    let vc = (n.value)(c);
    let vf = (n.value)(freq);
    let vr = (n.value)(ratio);
    let vq2 = (n.value)(q2);
    assert(vc == 247real * 9265real / 10000real) by (nonlinear_arith)
        requires
            vc == vw * vq2,
            vw * 10real == 247real,
            vq2 * 1000real == 9265real,
    ;
    assert(vr == vf / vc) by (nonlinear_arith)
        requires
            vr * vc == vf,
            vc == 247real * 9265real / 10000real,
    ;
    let vl = (n.value)(log);
    assert(1000real * (vq * vl) == 9265real * vl) by (nonlinear_arith)
        requires
            vq * 1000real == 9265real,
    ;
}

/// The number of a frequency on the scale is `9.265 ln(1 + f / (24.7 * 9.265))`.
pub proof fn scale_is_logarithmic<S: Sample>(n: Numbers<S>, freq: S, r: S)
    requires
        n.calculate(),
        n.compute_functions(),
        call_ensures(erb::freq2erb::<S>, (freq,), r),
    ensures
        1000real * (n.value)(r) == 9265real * (n.ln_1p)(
            (n.value)(freq) / (247real * 9265real / 10000real),
        ),
{
    lemma_erb_of_freq(n, freq, r);
}

proof fn lemma_freq_of_erb<S: Sample>(n: Numbers<S>, n_erb: S, r: S)
    requires
        n.calculate(),
        n.compute_functions(),
        erb::freq_of_erb_is(n_erb, r),
    ensures
        (n.value)(r) == corner() * ((n.exp)((n.value)(n_erb) * 1000real / 9265real) - 1real),
{
    lemma_powers_of_ten();
    let (width, q, c, q2, ratio, power, one, growth) = choose|
        width: S,
        q: S,
        corner: S,
        q2: S,
        ratio: S,
        power: S,
        one: S,
        growth: S,
    |
        {
            &&& #[trigger] sample::is_decimal(247, 1, width)
            &&& sample::is_decimal(9265, 3, q)
            &&& #[trigger] sample::multiplies(width, q, corner)
            &&& sample::is_decimal(9265, 3, q2)
            &&& #[trigger] sample::divides(n_erb, q2, ratio)
            &&& #[trigger] call_ensures(S::exponential, (ratio,), power)
            &&& #[trigger] sample::is_one(one)
            &&& #[trigger] sample::subtracts(power, one, growth)
            &&& sample::multiplies(corner, growth, r)
        };
    let vw = (n.value)(width);
    let vq = (n.value)(q);
    let vc = (n.value)(c);
    let vq2 = (n.value)(q2);
    let ve = (n.value)(n_erb);
    let vr = (n.value)(ratio);
    assert(vc == 247real * 9265real / 10000real) by (nonlinear_arith)
        requires
            vc == vw * vq,
            vw * 10real == 247real,
            vq * 1000real == 9265real,
    ;
    assert(vq2 != 0real) by (nonlinear_arith)
        requires
            vq2 * 1000real == 9265real,
    ;
    assert(vr == ve * 1000real / 9265real) by (nonlinear_arith)
        requires
            vr * vq2 == ve,
            vq2 * 1000real == 9265real,
    ;
}

/// The frequency with a number on the scale is `24.7 * 9.265 (e^(number / 9.265) - 1)`.
pub proof fn frequencies_grow_exponentially<S: Sample>(n: Numbers<S>, n_erb: S, r: S)
    requires
        n.calculate(),
        n.compute_functions(),
        call_ensures(erb::erb2freq::<S>, (n_erb,), r),
    ensures
        (n.value)(r) == (247real * 9265real / 10000real) * ((n.exp)(
            (n.value)(n_erb) * 1000real / 9265real,
        ) - 1real),
{
    lemma_freq_of_erb(n, n_erb, r);
}

/// Going to the scale and back gives the frequency again.
pub proof fn scale_can_be_walked_back<S: Sample>(n: Numbers<S>, freq: S, e: S, back: S)
    requires
        n.calculate(),
        n.compute_functions(),
        logarithms_undo_exponentials(n),
        call_ensures(erb::freq2erb::<S>, (freq,), e),
        call_ensures(erb::erb2freq::<S>, (e,), back),
        (n.value)(freq) > -(247real * 9265real / 10000real),
    ensures
        (n.value)(back) == (n.value)(freq),
{
    lemma_erb_of_freq(n, freq, e);
    lemma_freq_of_erb(n, e, back);
    let f = (n.value)(freq);
    let c = corner();
    let x = f / c;
    let l = (n.ln_1p)(x);
    let ve = (n.value)(e);
    assert(c > 0real && x > -1real && c * (x + 1real - 1real) == f) by (nonlinear_arith)
        requires
            c == 247real * 9265real / 10000real,
            x == f / c,
            f > -c,
    ;
    assert(ve * 1000real / 9265real == l) by (nonlinear_arith)
        requires
            1000real * ve == 9265real * l,
    ;
    assert((n.exp)(l) == x + 1real);
}

/// The edges of bands share the scale equally: with `f` as the number of half the sample rate on
/// the scale, over 9.265, edge `i` is the bin nearest to the frequency with the share
/// `(i + 1) / nb_bands` of that number.
pub proof fn edges_share_the_scale_equally<S: Sample>(
    n: Numbers<S>,
    sr: usize,
    fft_size: usize,
    nb_bands: usize,
    edges: Vec<usize>,
    i: int,
    f: real,
    freq: real,
)
    requires
        n.calculate(),
        n.compute_functions(),
        n.round(),
        (n.ln_1p)(0real) == 0real,
        call_ensures(erb::erb_edges::<S>, (sr, fft_size, nb_bands), edges),
        0 <= i < nb_bands,
        sr > 0,
        fft_size > 0,
        f == (n.ln_1p)((sr as int / 2) as real / (247real * 9265real / 10000real)),
        freq == (247real * 9265real / 10000real) * ((n.exp)(
            ((i + 1) as real * f) / (nb_bands as real),
        ) - 1real),
    ensures
        edges@.len() == nb_bands,
        0real <= freq * (fft_size as real) / (sr as real) <= usize::MAX as real ==> -1real <= 2real
            * (freq * (fft_size as real) / (sr as real) - edges@[i] as real) < 1real,
{
    let (bin, low, step) = choose|bin: S, low: S, step: S|
        #![trigger erb::erb_grid_is(sr, fft_size, nb_bands, bin, low, step)]
        {
            &&& erb::erb_grid_is(sr, fft_size, nb_bands, bin, low, step)
            &&& forall|i: int|
                0 <= i < nb_bands ==> erb::erb_edge_is(
                    bin,
                    low,
                    step,
                    (i + 1) as usize,
                    #[trigger] edges@[i],
                )
        };
    lemma_grid(n, sr, fft_size, nb_bands, bin, low, step);
    assert(erb::erb_edge_is(bin, low, step, (i + 1) as usize, edges@[i]));
    lemma_edge(n, sr, fft_size, nb_bands, bin, low, step, (i + 1) as usize, edges@[i]);
}

proof fn lemma_grid<S: Sample>(
    n: Numbers<S>,
    sr: usize,
    fft_size: usize,
    nb_bands: usize,
    bin: S,
    low: S,
    step: S,
)
    requires
        n.calculate(),
        n.compute_functions(),
        (n.ln_1p)(0real) == 0real,
        erb::erb_grid_is(sr, fft_size, nb_bands, bin, low, step),
        fft_size > 0,
        nb_bands > 0,
    ensures
        (n.value)(bin) * (fft_size as real) == sr as real,
        (n.value)(low) == 0real,
        1000real * (n.value)(step) * (nb_bands as real) == 9265real * (n.ln_1p)(
            (sr as int / 2) as real / corner(),
        ),
{
    let (rate, size, zero, nyquist, high, span, bands) = choose|
        rate: S,
        size: S,
        zero: S,
        nyquist: S,
        high: S,
        span: S,
        bands: S,
    |
        {
            &&& #[trigger] sample::is_count(sr, rate)
            &&& #[trigger] sample::is_count(fft_size, size)
            &&& sample::divides(rate, size, bin)
            &&& #[trigger] sample::is_zero(zero)
            &&& erb::erb_of_freq_is(zero, low)
            &&& #[trigger] sample::is_count((sr / 2) as usize, nyquist)
            &&& #[trigger] erb::erb_of_freq_is(nyquist, high)
            &&& #[trigger] sample::subtracts(high, low, span)
            &&& #[trigger] sample::is_count(nb_bands, bands)
            &&& sample::divides(span, bands, step)
        };
    lemma_erb_of_freq(n, zero, low);
    lemma_erb_of_freq(n, nyquist, high);
    assert(0real / corner() == 0real) by (nonlinear_arith)
        requires
            corner() == 247real * 9265real / 10000real,
    ;
    let vl = (n.value)(low);
    assert(vl == 0real) by (nonlinear_arith)
        requires
            1000real * vl == 9265real * 0real,
    ;
    let vs = (n.value)(step);
    let vb = nb_bands as real;
    let vh = (n.value)(high);
    let l = (n.ln_1p)((sr as int / 2) as real / corner());
    assert(1000real * vs * vb == 9265real * l) by (nonlinear_arith)
        requires
            vs * vb == vh,
            1000real * vh == 9265real * l,
    ;
}

proof fn lemma_edge<S: Sample>(
    n: Numbers<S>,
    sr: usize,
    fft_size: usize,
    nb_bands: usize,
    bin: S,
    low: S,
    step: S,
    i: usize,
    edge: usize,
)
    requires
        n.calculate(),
        n.compute_functions(),
        n.round(),
        erb::erb_edge_is(bin, low, step, i, edge),
        (n.value)(bin) * (fft_size as real) == sr as real,
        (n.value)(low) == 0real,
        1000real * (n.value)(step) * (nb_bands as real) == 9265real * (n.ln_1p)(
            (sr as int / 2) as real / corner(),
        ),
        sr > 0,
        fft_size > 0,
        nb_bands > 0,
    ensures
        ({
            let f = (n.ln_1p)((sr as int / 2) as real / corner());
            let freq = corner() * ((n.exp)((i as real * f) / (nb_bands as real)) - 1real);
            0real <= freq * (fft_size as real) / (sr as real) <= usize::MAX as real ==> -1real
                <= 2real * (freq * (fft_size as real) / (sr as real) - edge as real) < 1real
        }),
{
    let (count, offset, e, freq, place) = choose|
        count: S,
        offset: S,
        erb: S,
        freq: S,
        place: S,
    |
        {
            &&& #[trigger] sample::is_count(i, count)
            &&& #[trigger] sample::multiplies(count, step, offset)
            &&& #[trigger] sample::adds(low, offset, erb)
            &&& #[trigger] erb::freq_of_erb_is(erb, freq)
            &&& #[trigger] sample::divides(freq, bin, place)
            &&& call_ensures(S::nearest_count, (place,), edge)
        };
    lemma_freq_of_erb(n, e, freq);
    let l = (n.ln_1p)((sr as int / 2) as real / corner());
    let vs = (n.value)(step);
    let ve = (n.value)(e);
    let vi = i as real;
    let vb = nb_bands as real;
    let x = ve * 1000real / 9265real;
    let vf = (n.value)(freq);
    assert(x == (vi * l) / vb) by (nonlinear_arith)
        requires
            ve == vi * vs,
            1000real * vs * vb == 9265real * l,
            x == ve * 1000real / 9265real,
            vb > 0real,
    ;
    let vbin = (n.value)(bin);
    let vp = (n.value)(place);
    let vn = fft_size as real;
    let vr = sr as real;
    assert(vbin != 0real) by (nonlinear_arith)
        requires
            vbin * vn == vr,
            vr > 0real,
    ;
    assert(vp == vf * vn / vr) by (nonlinear_arith)
        requires
            vp * vbin == vf,
            vbin * vn == vr,
            vr > 0real,
    ;
}

/// What comes of laying out bands.
pub proof fn lemma_laid_out<S: Sample>(
    sr: usize,
    fft_size: usize,
    nb_bands: usize,
    min_nb_freqs: usize,
    r: Option<Vec<usize>>,
)
    requires
        erb::erb_fb_is::<S>(sr, fft_size, nb_bands, min_nb_freqs, r),
        min_nb_freqs <= i32::MAX,
    ensures
        nb_bands == 0 ==> r is None,
        r is None ==> exists|edges: Seq<usize>|
            {
                &&& #[trigger] erb::erb_edges_are::<S>(sr, fft_size, nb_bands, edges)
                &&& edges.len() == nb_bands
                &&& forall|ends: Seq<int>|
                    nb_bands > 0 && small(edges, min_nb_freqs) && #[trigger] ends_are(
                        edges,
                        min_nb_freqs as int,
                        ends,
                    ) && ends.last() < i32::MAX ==> !(ends[nb_bands - 1] <= fft_size as int / 2 + 1
                        <= ends.last() + 1)
            },
        r is Some ==> exists|edges: Seq<usize>|
            {
                &&& #[trigger] erb::erb_edges_are::<S>(sr, fft_size, nb_bands, edges)
                &&& edges.len() == nb_bands
                &&& r->Some_0@.len() == nb_bands
                &&& erb::band_start(r->Some_0@, nb_bands as int) == fft_size as int / 2 + 1
                &&& forall|b: int|
                    0 <= b < nb_bands - 1 && small(edges, min_nb_freqs) ==> #[trigger] (
                    erb::band_start(r->Some_0@, b + 1)) == (if edges[b] >= erb::band_start(
                        r->Some_0@,
                        b,
                    ) + min_nb_freqs {
                        edges[b] as int
                    } else {
                        erb::band_start(r->Some_0@, b) + min_nb_freqs
                    })
            },
{
    let least = erb::low_word(min_nb_freqs);
    let edges = choose|edges: Seq<usize>|
        {
            &&& #[trigger] erb::erb_edges_are::<S>(sr, fft_size, nb_bands, edges)
            &&& r is Some <==> erb::layout_exists(edges, fft_size, least)
            &&& r matches Some(widths) ==> widths@ == erb::layout(edges, fft_size, least)
        };
    if r is Some {
        let w = r->Some_0@;
        erb::layout_covers_the_spectrum(edges, fft_size, least);
        assert forall|b: int| 0 <= b < nb_bands - 1 && small(edges, min_nb_freqs) implies #[trigger] (
        erb::band_start(w, b + 1)) == (if edges[b] >= erb::band_start(w, b) + min_nb_freqs {
            edges[b] as int
        } else {
            erb::band_start(w, b) + min_nb_freqs
        }) by {
            lemma_ends_at_edge(edges, fft_size, min_nb_freqs, b);
        }
        assert(erb::erb_edges_are::<S>(sr, fft_size, nb_bands, edges));
    } else {
        assert forall|ends: Seq<int>|
            nb_bands > 0 && small(edges, min_nb_freqs) && #[trigger] ends_are(
                edges,
                min_nb_freqs as int,
                ends,
            ) && ends.last() < i32::MAX implies !(ends[nb_bands - 1] <= fft_size as int / 2 + 1
            <= ends.last() + 1) by {
            lemma_low_word(min_nb_freqs);
            lemma_asked_ends(edges, min_nb_freqs, ends, nb_bands as int);
            lemma_asked_ends(edges, min_nb_freqs, ends, nb_bands - 1);
        }
    }
}

/// The widths of the bands are those of the layout of the edges.
pub proof fn bands_are_laid_out_by_their_edges<S: Sample>(
    sr: usize,
    fft_size: usize,
    nb_bands: usize,
    min_nb_freqs: usize,
    r: Option<Vec<usize>>,
)
    requires
        call_ensures(erb::erb_fb::<S>, (sr, fft_size, nb_bands, min_nb_freqs), r),
        min_nb_freqs <= i32::MAX,
    ensures
        nb_bands == 0 ==> r is None,
        r is None ==> exists|edges: Seq<usize>|
            {
                &&& #[trigger] erb::erb_edges_are::<S>(sr, fft_size, nb_bands, edges)
                &&& edges.len() == nb_bands
                &&& forall|ends: Seq<int>|
                    nb_bands > 0 && small(edges, min_nb_freqs) && #[trigger] ends_are(
                        edges,
                        min_nb_freqs as int,
                        ends,
                    ) && ends.last() < i32::MAX ==> !(ends[nb_bands - 1] <= fft_size as int / 2 + 1
                        <= ends.last() + 1)
            },
        r is Some ==> exists|edges: Seq<usize>|
            {
                &&& #[trigger] erb::erb_edges_are::<S>(sr, fft_size, nb_bands, edges)
                &&& edges.len() == nb_bands
                &&& r->Some_0@.len() == nb_bands
                &&& erb::band_start(r->Some_0@, nb_bands as int) == fft_size as int / 2 + 1
                &&& forall|b: int|
                    0 <= b < nb_bands - 1 && small(edges, min_nb_freqs) ==> #[trigger] (
                    erb::band_start(r->Some_0@, b + 1)) == (if edges[b] >= erb::band_start(
                        r->Some_0@,
                        b,
                    ) + min_nb_freqs {
                        edges[b] as int
                    } else {
                        erb::band_start(r->Some_0@, b) + min_nb_freqs
                    })
            },
{
    lemma_laid_out::<S>(sr, fft_size, nb_bands, min_nb_freqs, r);
}

} // verus!
