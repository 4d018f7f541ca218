//! Bands of equal width on the ERB scale (equivalent rectangular bandwidth), the
//! frequency resolution of human hearing, laid over the bins of a transform.
//!
//! A band layout is a sequence of widths, counted in bins. Band `b` starts where
//! the bands before it end, at bin `band_start(widths, b)`.
use vstd::prelude::*;

use crate::sample;
use crate::sample::Sample;

verus! {

/// The first bin of band `b`: the widths of all bands before it, added up.
pub open spec fn band_start(widths: Seq<usize>, b: int) -> int
    decreases b,
{
    if b <= 0 {
        0
    } else {
        band_start(widths, b - 1) + widths[b - 1]
    }
}

/// Bin `i` lies in band `b`.
pub open spec fn in_band(widths: Seq<usize>, b: int, i: int) -> bool {
    band_start(widths, b) <= i < band_start(widths, b + 1)
}

/// Later bands start no earlier.
pub proof fn lemma_band_start_monotonic(widths: Seq<usize>, a: int, b: int)
    requires
        0 <= a <= b <= widths.len(),
    ensures
        0 <= band_start(widths, a) <= band_start(widths, b),
    decreases b,
{
    if b > 0 {
        if a < b {
            lemma_band_start_monotonic(widths, a, b - 1);
        } else {
            lemma_band_start_monotonic(widths, a - 1, b - 1);
        }
    }
}

/// Where a band starts depends only on the widths of the bands before it.
pub proof fn lemma_band_start_prefix(v: Seq<usize>, w: Seq<usize>, b: int)
    requires
        0 <= b <= v.len(),
        b <= w.len(),
        forall|i: int| 0 <= i < b ==> v[i] == w[i],
    ensures
        band_start(v, b) == band_start(w, b),
    decreases b,
{
    if b > 0 {
        lemma_band_start_prefix(v, w, b - 1);
    }
}

/// No bin lies in two bands.
pub proof fn bands_do_not_overlap(widths: Seq<usize>, a: int, b: int, i: int)
    requires
        0 <= a < widths.len(),
        0 <= b < widths.len(),
        in_band(widths, a, i),
        in_band(widths, b, i),
    ensures
        a == b,
{
    if a < b {
        lemma_band_start_monotonic(widths, a + 1, b);
    } else if b < a {
        lemma_band_start_monotonic(widths, b + 1, a);
    }
}

/// Every bin below the end of the last of `n` bands lies in one of them.
pub proof fn bands_leave_no_gap(widths: Seq<usize>, n: int, i: int)
    requires
        0 <= n <= widths.len(),
        0 <= i < band_start(widths, n),
    ensures
        exists|b: int| 0 <= b < n && in_band(widths, b, i),
    decreases n,
{
    if n > 0 {
        if i >= band_start(widths, n - 1) {
            assert(in_band(widths, n - 1, i));
        } else {
            bands_leave_no_gap(widths, n - 1, i);
            let b = choose|b: int| 0 <= b < n - 1 && in_band(widths, b, i);
            assert(0 <= b < n && in_band(widths, b, i));
        }
    }
}

// The ERB scale.

/// `r` is the ERB number of the frequency `freq_hz`: `9.265 ln(1 + f / (24.7 * 9.265))`.
pub open spec fn erb_of_freq_is<S: Sample>(freq_hz: S, r: S) -> bool {
    exists|q: S, width: S, q2: S, corner: S, ratio: S, log: S|
        {
            &&& #[trigger] sample::is_decimal(9265, 3, q)
            &&& #[trigger] sample::is_decimal(247, 1, width)
            &&& sample::is_decimal(9265, 3, q2)
            &&& #[trigger] sample::multiplies(width, q2, corner)
            &&& #[trigger] sample::divides(freq_hz, corner, ratio)
            &&& #[trigger] call_ensures(S::log_one_plus, (ratio,), log)
            &&& sample::multiplies(q, log, r)
        }
}

/// `r` is the frequency with the ERB number `n_erb`: `24.7 * 9.265 (e^(n / 9.265) - 1)`.
pub open spec fn freq_of_erb_is<S: Sample>(n_erb: S, r: S) -> bool {
    exists|width: S, q: S, corner: S, q2: S, ratio: S, power: S, one: S, growth: S|
        {
            &&& #[trigger] sample::is_decimal(247, 1, width)
            &&& sample::is_decimal(9265, 3, q)
            &&& #[trigger] sample::multiplies(width, q, corner)
            &&& sample::is_decimal(9265, 3, q2)
            &&& #[trigger] sample::divides(n_erb, q2, ratio)
            &&& #[trigger] call_ensures(S::exponential, (ratio,), power)
            &&& #[trigger] sample::is_one(one)
            &&& #[trigger] sample::subtracts(power, one, growth)
            &&& sample::multiplies(corner, growth, r)
        }
}

/// The ERB number of a frequency in hertz.
pub fn freq2erb<S: Sample>(freq_hz: S) -> (r: S)
    ensures
        erb_of_freq_is(freq_hz, r),
{
    let q: S = S::decimal(9265, 3);
    let corner: S = S::decimal(247, 1).times(S::decimal(9265, 3));
    q.times(freq_hz.over(corner).log_one_plus())
}

/// The frequency in hertz with a given ERB number.
pub fn erb2freq<S: Sample>(n_erb: S) -> (r: S)
    ensures
        freq_of_erb_is(n_erb, r),
{
    let corner: S = S::decimal(247, 1).times(S::decimal(9265, 3));
    corner.times(n_erb.over(S::decimal(9265, 3)).exponential().minus(S::one()))
}

/// The ERB scale cut into bands: `bin` is the width of a bin in hertz, `low` the ERB number
/// of the lowest frequency and `step` the width of a band.
pub open spec fn erb_grid_is<S: Sample>(
    sr: usize,
    fft_size: usize,
    nb_bands: usize,
    bin: S,
    low: S,
    step: S,
) -> bool {
    exists|rate: S, size: S, zero: S, nyquist: S, high: S, span: S, bands: S|
        {
            &&& #[trigger] sample::is_count(sr, rate)
            &&& #[trigger] sample::is_count(fft_size, size)
            &&& sample::divides(rate, size, bin)
            &&& #[trigger] sample::is_zero(zero)
            &&& erb_of_freq_is(zero, low)
            &&& #[trigger] sample::is_count((sr / 2) as usize, nyquist)
            &&& #[trigger] erb_of_freq_is(nyquist, high)
            &&& #[trigger] sample::subtracts(high, low, span)
            &&& #[trigger] sample::is_count(nb_bands, bands)
            &&& sample::divides(span, bands, step)
        }
}

/// `edge` is the bin nearest to the upper end of band `i`, counted from one.
pub open spec fn erb_edge_is<S: Sample>(bin: S, low: S, step: S, i: usize, edge: usize) -> bool {
    exists|count: S, offset: S, erb: S, freq: S, place: S|
        {
            &&& #[trigger] sample::is_count(i, count)
            &&& #[trigger] sample::multiplies(count, step, offset)
            &&& #[trigger] sample::adds(low, offset, erb)
            &&& #[trigger] freq_of_erb_is(erb, freq)
            &&& #[trigger] sample::divides(freq, bin, place)
            &&& call_ensures(S::nearest_count, (place,), edge)
        }
}

/// `edges` are the upper ends, in bins, of `nb_bands` bands that share the ERB scale equally
/// between zero and half the sample rate.
pub open spec fn erb_edges_are<S: Sample>(
    sr: usize,
    fft_size: usize,
    nb_bands: usize,
    edges: Seq<usize>,
) -> bool {
    &&& edges.len() == nb_bands
    &&& exists|bin: S, low: S, step: S|
        #![trigger erb_grid_is(sr, fft_size, nb_bands, bin, low, step)]
        {
            &&& erb_grid_is(sr, fft_size, nb_bands, bin, low, step)
            &&& forall|i: int|
                0 <= i < nb_bands ==> erb_edge_is(
                    bin,
                    low,
                    step,
                    (i + 1) as usize,
                    #[trigger] edges[i],
                )
        }
}

/// The upper ends, in bins, of bands of equal width on the ERB scale.
pub fn erb_edges<S: Sample>(sr: usize, fft_size: usize, nb_bands: usize) -> (edges: Vec<usize>)
    ensures
        erb_edges_are::<S>(sr, fft_size, nb_bands, edges@),
{
    let bin: S = S::from_count(sr).over(S::from_count(fft_size));
    let low: S = freq2erb(S::zero());
    let high: S = freq2erb(S::from_count(sr / 2));
    let step: S = high.minus(low).over(S::from_count(nb_bands));
    assert(erb_grid_is(sr, fft_size, nb_bands, bin, low, step));
    let mut edges: Vec<usize> = Vec::new();
    let mut i: usize = 0;
    while i < nb_bands
        invariant
            i <= nb_bands,
            edges@.len() == i,
            forall|j: int|
                0 <= j < i ==> erb_edge_is(bin, low, step, (j + 1) as usize, #[trigger] edges@[j]),
        decreases nb_bands - i,
    {
        i += 1;
        let freq: S = erb2freq(low.plus(S::from_count(i).times(step)));
        let edge: usize = freq.over(bin).nearest_count();
        assert(erb_edge_is(bin, low, step, i, edge));
        edges.push(edge);
    }
    edges
}

// From band edges to band widths.

/// A count as the band arithmetic sees it: its low 32 bits, read as a signed number.
pub open spec fn low_word(n: usize) -> int {
    (n as i32) as int
}

/// The edge below band `i`: the upper edge of the band before it, or zero.
pub open spec fn lower_edge(edges: Seq<usize>, i: int) -> int {
    if i <= 0 {
        0
    } else {
        low_word(edges[i - 1])
    }
}

/// How many bins are left to band `i` once the bins that earlier bands borrowed are gone.
pub open spec fn own_bins(edges: Seq<usize>, least: int, i: int) -> int
    decreases i, 1int,
{
    low_word(edges[i]) - lower_edge(edges, i) - borrowed(edges, least, i)
}

/// How many bins the bands before band `i` took beyond their upper edge, so that each could
/// have at least `least` bins.
pub open spec fn borrowed(edges: Seq<usize>, least: int, i: int) -> int
    decreases i, 0int,
{
    if i <= 0 {
        0
    } else {
        let own = own_bins(edges, least, i - 1);
        if own < least {
            least - own
        } else {
            0
        }
    }
}

/// The width that band `i` asks for: its own bins, but at least `least`.
pub open spec fn asked_width(edges: Seq<usize>, least: int, i: int) -> int {
    let own = own_bins(edges, least, i);
    if own < least {
        least
    } else {
        own
    }
}

/// The widths that all bands ask for.
pub open spec fn asked_widths(edges: Seq<usize>, least: int) -> Seq<usize> {
    Seq::new(edges.len(), |i: int| asked_width(edges, least, i) as usize)
}

/// The number of bins that a transform of `fft_size` real samples has.
pub open spec fn bin_count(fft_size: usize) -> int {
    fft_size as int / 2 + 1
}

/// `n` is a 32-bit signed number.
pub open spec fn is_word(n: int) -> bool {
    i32::MIN <= n <= i32::MAX
}

/// The sums that lead to band `i`'s width stay within 32 bits.
pub open spec fn band_in_word(edges: Seq<usize>, least: int, i: int) -> bool {
    &&& is_word(low_word(edges[i]) - lower_edge(edges, i))
    &&& is_word(own_bins(edges, least, i))
    &&& own_bins(edges, least, i) < least ==> is_word(least - own_bins(edges, least, i))
}

/// Bands with these edges can be laid over the bins of a transform: no sum on the way
/// overflows, the bands together reach the last bin, and the bands before the last do not
/// reach beyond it.
pub open spec fn layout_exists(edges: Seq<usize>, fft_size: usize, least: int) -> bool {
    let asked = asked_widths(edges, least);
    let n = edges.len() as int;
    &&& 0 < n
    &&& forall|i: int| 0 <= i < n ==> #[trigger] band_in_word(edges, least, i)
    &&& band_start(asked, n) + 1 <= usize::MAX
    &&& band_start(asked, n - 1) <= bin_count(fft_size) <= band_start(asked, n) + 1
}

/// The layout: each band gets the width it asks for, and the last one every bin that is left.
pub open spec fn layout(edges: Seq<usize>, fft_size: usize, least: int) -> Seq<usize> {
    let asked = asked_widths(edges, least);
    let n = edges.len() as int;
    asked.update(n - 1, (bin_count(fft_size) - band_start(asked, n - 1)) as usize)
}

/// A layout covers every bin of the transform exactly.
pub proof fn layout_covers_the_spectrum(edges: Seq<usize>, fft_size: usize, least: int)
    requires
        layout_exists(edges, fft_size, least),
    ensures
        layout(edges, fft_size, least).len() == edges.len(),
        band_start(layout(edges, fft_size, least), edges.len() as int) == bin_count(fft_size),
{
    let n = edges.len() as int;
    let asked = asked_widths(edges, least);
    lemma_band_start_prefix(layout(edges, fft_size, least), asked, n - 1);
    lemma_band_start_monotonic(asked, 0, n - 1);
}

/// In a layout, every band but the last has at least the width that was demanded, unless the
/// demand itself is negative as a 32-bit number.
pub proof fn layout_respects_least_width(edges: Seq<usize>, fft_size: usize, least: int, i: int)
    requires
        layout_exists(edges, fft_size, least),
        0 <= least,
        0 <= i < edges.len() - 1,
    ensures
        layout(edges, fft_size, least)[i] >= least,
        layout(edges, fft_size, least)[i] == asked_width(edges, least, i),
{
    assert(band_in_word(edges, least, i));
}

/// Up to any band, the widths asked for add up to that band's upper edge and the bins
/// borrowed beyond it: what one band takes too much, the next ones give back.
pub proof fn borrowed_bins_are_given_back(edges: Seq<usize>, fft_size: usize, least: int, b: int)
    requires
        layout_exists(edges, fft_size, least),
        0 <= least,
        0 <= b <= edges.len(),
    ensures
        band_start(asked_widths(edges, least), b) == lower_edge(edges, b) + borrowed(
            edges,
            least,
            b,
        ),
    decreases b,
{
    if b > 0 {
        borrowed_bins_are_given_back(edges, fft_size, least, b - 1);
        assert(band_in_word(edges, least, b - 1));
    }
}

/// Turns band edges into band widths over the `fft_size / 2 + 1` bins of a transform, each
/// band but the last at least `min_nb_freqs` bins wide; none where no such layout exists.
pub fn band_widths(edges: &[usize], fft_size: usize, min_nb_freqs: usize) -> (r: Option<Vec<usize>>)
    ensures
        r is Some <==> layout_exists(edges@, fft_size, low_word(min_nb_freqs)),
        r matches Some(widths) ==> widths@ == layout(edges@, fft_size, low_word(min_nb_freqs)),
{
    let n: usize = edges.len();
    if n == 0 {
        return None;
    }
    let least: i32 = #[verifier::truncate]
    (min_nb_freqs as i32);
    let ghost asked = asked_widths(edges@, least as int);
    let mut widths: Vec<usize> = Vec::new();
    let mut total: usize = 0;
    let mut prev: i32 = 0;
    let mut over: i32 = 0;
    let mut i: usize = 0;
    while i < n
        invariant
            i <= n,
            n == edges@.len(),
            least == low_word(min_nb_freqs),
            asked == asked_widths(edges@, least as int),
            widths@ == asked.take(i as int),
            total == band_start(asked, i as int),
            prev == lower_edge(edges@, i as int),
            over == borrowed(edges@, least as int, i as int),
            forall|j: int| 0 <= j < i ==> #[trigger] band_in_word(edges@, least as int, j),
        decreases n - i,
    {
        let edge: i32 = #[verifier::truncate]
        (edges[i] as i32);
        let ghost k = i as int;
        assert(own_bins(edges@, least as int, k) == edge - prev - over);
        let gap: i32 = match edge.checked_sub(prev) {
            Some(gap) => gap,
            None => {
                assert(!band_in_word(edges@, least as int, k));
                return None;
            },
        };
        let own: i32 = match gap.checked_sub(over) {
            Some(own) => own,
            None => {
                assert(!band_in_word(edges@, least as int, k));
                return None;
            },
        };
        let width: i32;
        if own < least {
            // The band is too narrow: it takes bins from the bands above it.
            over = match least.checked_sub(own) {
                Some(over) => over,
                None => {
                    assert(!band_in_word(edges@, least as int, k));
                    return None;
                },
            };
            width = least;
        } else {
            over = 0;
            width = own;
        }
        assert(band_in_word(edges@, least as int, k));
        let bins: usize = #[verifier::truncate]
        (width as usize);
        assert(asked[k] == bins);
        total = match total.checked_add(bins) {
            Some(total) => total,
            None => {
                proof {
                    lemma_band_start_monotonic(asked, k + 1, n as int);
                }
                return None;
            },
        };
        widths.push(bins);
        prev = edge;
        i += 1;
    }
    assert(asked.take(n as int) == asked);
    let target: usize = fft_size / 2 + 1;
    proof {
        lemma_band_start_monotonic(asked, n - 1, n as int);
    }
    let before_last: usize = total - widths[n - 1];
    if total == usize::MAX || total + 1 < target || target < before_last {
        return None;
    }
    widths[n - 1] = target - before_last;
    Some(widths)
}

/// The widths, in bins, of `nb_bands` bands that share the ERB scale equally, over the
/// `fft_size / 2 + 1` bins of a transform of samples at the rate `sr`. None where the edges
/// that `S` computes admit no layout.
pub fn erb_fb<S: Sample>(
    sr: usize,
    fft_size: usize,
    nb_bands: usize,
    min_nb_freqs: usize,
) -> (r: Option<Vec<usize>>)
    ensures
        erb_fb_is::<S>(sr, fft_size, nb_bands, min_nb_freqs, r),
        r matches Some(widths) ==> {
            &&& widths@.len() == nb_bands
            &&& band_start(widths@, nb_bands as int) == bin_count(fft_size)
        },
{
    let edges: Vec<usize> = erb_edges::<S>(sr, fft_size, nb_bands);
    let r: Option<Vec<usize>> = band_widths(&edges, fft_size, min_nb_freqs);
    proof {
        if r is Some {
            layout_covers_the_spectrum(edges@, fft_size, low_word(min_nb_freqs));
        }
        assert(erb_edges_are::<S>(sr, fft_size, nb_bands, edges@));
    }
    r
}

/// `r` is the layout of `nb_bands` ERB bands over the bins of a transform, or nothing if the
/// bands have none.
pub open spec fn erb_fb_is<S: Sample>(
    sr: usize,
    fft_size: usize,
    nb_bands: usize,
    min_nb_freqs: usize,
    r: Option<Vec<usize>>,
) -> bool {
    exists|edges: Seq<usize>|
        {
            &&& #[trigger] erb_edges_are::<S>(sr, fft_size, nb_bands, edges)
            &&& r is Some <==> layout_exists(edges, fft_size, low_word(min_nb_freqs))
            &&& r matches Some(widths) ==> widths@ == layout(
                edges,
                fft_size,
                low_word(min_nb_freqs),
            )
        }
}

} // verus!
