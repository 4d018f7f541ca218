//! Operations that treat the bins of a spectrum band by band.
//!
//! A band layout `erb_fb` gives the width of each band in bins; see [`crate::erb`].
use vstd::prelude::*;

use crate::complex::Complex;
use crate::erb;
use crate::sample;
use crate::sample::{Sample, Scalable};

verus! {

/// The lesser of two lengths.
pub open spec fn common_len(a: nat, b: nat) -> int {
    if a < b {
        a as int
    } else {
        b as int
    }
}

// Correlation.

/// `acc` is a value of the running sum `x[lo] . p[lo] + ... + x[lo + n - 1] . p[lo + n - 1]`,
/// where `a . b` adds the product of the real parts, then that of the imaginary parts.
pub open spec fn dot_is<S: Sample>(
    x: Seq<Complex<S>>,
    p: Seq<Complex<S>>,
    lo: int,
    n: int,
    acc: S,
) -> bool
    decreases n,
{
    if n <= 0 {
        sample::is_zero(acc)
    } else {
        exists|prev: S|
            dot_is(x, p, lo, n - 1, prev) && #[trigger] dot_step_is(
                prev,
                x[lo + n - 1],
                p[lo + n - 1],
                acc,
            )
    }
}

/// `acc` is a value of `prev + a.re * b.re + a.im * b.im`, added from left to right.
pub open spec fn dot_step_is<S: Sample>(prev: S, a: Complex<S>, b: Complex<S>, acc: S) -> bool {
    exists|re: S, im: S, mid: S|
        {
            &&& sample::multiplies(a.re, b.re, re)
            &&& #[trigger] sample::adds(prev, re, mid)
            &&& sample::multiplies(a.im, b.im, im)
            &&& #[trigger] sample::adds(mid, im, acc)
        }
}

/// `r` is the mean of `x . p` over the `n` bins from `lo` on.
pub open spec fn band_corr_is<S: Sample>(
    x: Seq<Complex<S>>,
    p: Seq<Complex<S>>,
    lo: int,
    n: usize,
    r: S,
) -> bool {
    exists|sum: S, k: S|
        {
            &&& #[trigger] dot_is(x, p, lo, n as int, sum)
            &&& reciprocal_is(n, k)
            &&& #[trigger] sample::multiplies(sum, k, r)
        }
}

/// `k` is a value of `1 / n`.
pub open spec fn reciprocal_is<S: Sample>(n: usize, k: S) -> bool {
    exists|one: S, count: S|
        {
            &&& sample::is_one(one)
            &&& sample::is_count(n, count)
            &&& #[trigger] sample::divides(one, count, k)
        }
}

/// One over a count.
pub fn reciprocal<S: Sample>(n: usize) -> (k: S)
    ensures
        reciprocal_is(n, k),
{
    S::one().over(S::from_count(n))
}

/// The sum of `x . p` over the `n` bins from `lo` on.
pub fn compute_band_corr_inner<S: Sample>(
    x: &[Complex<S>],
    p: &[Complex<S>],
    lo: usize,
    n: usize,
) -> (sum: S)
    requires
        lo + n <= x@.len(),
        lo + n <= p@.len(),
    ensures
        dot_is(x@, p@, lo as int, n as int, sum),
{
    let len: usize = x.len();
    let mut sum: S = S::zero();
    let mut j: usize = 0;
    while j < n
        invariant
            j <= n,
            len == x@.len(),
            lo + n <= x@.len(),
            lo + n <= p@.len(),
            dot_is(x@, p@, lo as int, j as int, sum),
        decreases n - j,
    {
        let ghost prev = sum;
        let a: Complex<S> = x[lo + j];
        let b: Complex<S> = p[lo + j];
        sum = sum.plus(a.re.times(b.re)).plus(a.im.times(b.im));
        j += 1;
        assert(dot_step_is(prev, x@[lo + j - 1], p@[lo + j - 1], sum));
    }
    sum
}

/// Writes to each place of `out` the mean of `x . p` over the band of the same number.
pub fn compute_band_corr<S: Sample>(
    out: &mut [S],
    x: &[Complex<S>],
    p: &[Complex<S>],
    erb_fb: &[usize],
)
    requires
        erb_fb@.len() == old(out)@.len(),
        x@.len() == p@.len(),
        erb::band_start(erb_fb@, erb_fb@.len() as int) <= x@.len(),
    ensures
        final(out)@.len() == old(out)@.len(),
        forall|b: int|
            0 <= b < erb_fb@.len() ==> band_corr_is(
                x@,
                p@,
                erb::band_start(erb_fb@, b),
                erb_fb@[b],
                #[trigger] final(out)@[b],
            ),
{
    let n: usize = erb_fb.len();
    let len: usize = x.len();
    let mut start: usize = 0;
    let mut b: usize = 0;
    while b < n
        invariant
            b <= n,
            n == erb_fb@.len(),
            len == x@.len(),
            n == out@.len(),
            n == old(out)@.len(),
            x@.len() == p@.len(),
            erb::band_start(erb_fb@, n as int) <= x@.len(),
            start == erb::band_start(erb_fb@, b as int),
            forall|j: int|
                0 <= j < b ==> band_corr_is(
                    x@,
                    p@,
                    erb::band_start(erb_fb@, j),
                    erb_fb@[j],
                    #[trigger] out@[j],
                ),
        decreases n - b,
    {
        let band_size: usize = erb_fb[b];
        proof {
            erb::lemma_band_start_monotonic(erb_fb@, b + 1, n as int);
        }
        let k: S = reciprocal(band_size);
        let sum: S = compute_band_corr_inner(x, p, start, band_size);
        out[b] = sum.times(k);
        assert(band_corr_is(x@, p@, start as int, band_size, out@[b as int]));
        start += band_size;
        b += 1;
    }
}

// Averages.

/// `acc` is a value of the running sum `x[lo] * k + ... + x[lo + n - 1] * k`.
pub open spec fn weighted_sum_is<S: Sample>(x: Seq<S>, lo: int, n: int, k: S, acc: S) -> bool
    decreases n,
{
    if n <= 0 {
        sample::is_zero(acc)
    } else {
        exists|prev: S|
            weighted_sum_is(x, lo, n - 1, k, prev) && #[trigger] weighted_step_is(
                prev,
                x[lo + n - 1],
                k,
                acc,
            )
    }
}

/// `acc` is a value of `prev + v * k`.
pub open spec fn weighted_step_is<S: Sample>(prev: S, v: S, k: S, acc: S) -> bool {
    exists|term: S| sample::multiplies(v, k, term) && sample::adds(prev, term, acc)
}

/// `r` is the mean of the `n` values of `x` from `lo` on, each weighted by `1 / n`.
pub open spec fn band_mean_is<S: Sample>(x: Seq<S>, lo: int, n: usize, r: S) -> bool {
    exists|k: S| reciprocal_is(n, k) && #[trigger] weighted_sum_is(x, lo, n as int, k, r)
}

/// Writes to each place of `out` the mean of `x` over the band of the same number.
pub fn band_compr<S: Sample>(out: &mut [S], x: &[S], erb_fb: &[usize])
    requires
        erb_fb@.len() == old(out)@.len(),
        erb::band_start(erb_fb@, erb_fb@.len() as int) <= x@.len(),
    ensures
        final(out)@.len() == old(out)@.len(),
        forall|b: int|
            0 <= b < erb_fb@.len() ==> band_mean_is(
                x@,
                erb::band_start(erb_fb@, b),
                erb_fb@[b],
                #[trigger] final(out)@[b],
            ),
{
    let n: usize = erb_fb.len();
    let len: usize = x.len();
    let mut start: usize = 0;
    let mut b: usize = 0;
    while b < n
        invariant
            b <= n,
            n == erb_fb@.len(),
            len == x@.len(),
            n == out@.len(),
            n == old(out)@.len(),
            erb::band_start(erb_fb@, n as int) <= x@.len(),
            start == erb::band_start(erb_fb@, b as int),
            forall|j: int|
                0 <= j < b ==> band_mean_is(
                    x@,
                    erb::band_start(erb_fb@, j),
                    erb_fb@[j],
                    #[trigger] out@[j],
                ),
        decreases n - b,
    {
        let band_size: usize = erb_fb[b];
        proof {
            erb::lemma_band_start_monotonic(erb_fb@, b + 1, n as int);
        }
        let k: S = reciprocal(band_size);
        let mut sum: S = S::zero();
        let mut j: usize = 0;
        while j < band_size
            invariant
                j <= band_size,
                len == x@.len(),
                start + band_size <= x@.len(),
                weighted_sum_is(x@, start as int, j as int, k, sum),
            decreases band_size - j,
        {
            let ghost prev = sum;
            sum = sum.plus(x[start + j].times(k));
            j += 1;
            assert(weighted_step_is(prev, x@[start + j - 1], k, sum));
        }
        out[b] = sum;
        assert(band_mean_is(x@, start as int, band_size, out@[b as int]));
        start += band_size;
        b += 1;
    }
}

// Gains.

/// Spreads one value per band over the bins: `r` is related to `x` by `rel`, with the band's
/// value, in every bin of the first `n` bands, and equals `x` in all other bins.
pub open spec fn banded<T, S>(
    x: Seq<T>,
    values: Seq<S>,
    widths: Seq<usize>,
    n: int,
    r: Seq<T>,
    rel: spec_fn(T, S, T) -> bool,
) -> bool {
    &&& r.len() == x.len()
    &&& forall|b: int, i: int|
        #![trigger erb::in_band(widths, b, i)]
        0 <= b < n && erb::in_band(widths, b, i) ==> rel(x[i], values[b], r[i])
    &&& forall|i: int| erb::band_start(widths, n) <= i < x.len() ==> #[trigger] r[i] == x[i]
}

/// Applies to every bin of `out` the gain of the band that the bin lies in. Bins beyond the
/// last band that has both a width and a gain are left alone.
pub fn apply_interp_band_gain<T: Scalable<S>, S: Sample>(
    out: &mut [T],
    band_e: &[S],
    erb_fb: &[usize],
)
    requires
        erb::band_start(erb_fb@, common_len(erb_fb@.len(), band_e@.len())) <= old(out)@.len(),
    ensures
        banded(
            old(out)@,
            band_e@,
            erb_fb@,
            common_len(erb_fb@.len(), band_e@.len()),
            final(out)@,
            |x: T, gain: S, r: T| call_ensures(T::scaled, (x, gain), r),
        ),
{
    let n: usize = if erb_fb.len() < band_e.len() {
        erb_fb.len()
    } else {
        band_e.len()
    };
    let ghost rel = |x: T, gain: S, r: T| call_ensures(T::scaled, (x, gain), r);
    let len: usize = out.len();
    let mut start: usize = 0;
    let mut b: usize = 0;
    while b < n
        invariant
            b <= n,
            len == out@.len(),
            n == common_len(erb_fb@.len(), band_e@.len()),
            erb::band_start(erb_fb@, n as int) <= out@.len(),
            start == erb::band_start(erb_fb@, b as int),
            rel == (|x: T, gain: S, r: T| call_ensures(T::scaled, (x, gain), r)),
            banded(old(out)@, band_e@, erb_fb@, b as int, out@, rel),
        decreases n - b,
    {
        let band_size: usize = erb_fb[b];
        let gain: S = band_e[b];
        let ghost before = out@;
        proof {
            erb::lemma_band_start_monotonic(erb_fb@, b + 1, n as int);
        }
        let mut j: usize = 0;
        while j < band_size
            invariant
                j <= band_size,
                len == out@.len(),
                start + band_size <= out@.len(),
                out@.len() == before.len(),
                forall|i: int| 0 <= i < start ==> #[trigger] out@[i] == before[i],
                forall|i: int|
                    start <= i < start + j ==> call_ensures(
                        T::scaled,
                        (before[i], gain),
                        #[trigger] out@[i],
                    ),
                forall|i: int| start + j <= i < out@.len() ==> #[trigger] out@[i] == before[i],
            decreases band_size - j,
        {
            out[start + j] = out[start + j].scaled(gain);
            j += 1;
        }
        proof {
            lemma_next_band(old(out)@, before, out@, band_e@, erb_fb@, b as int, rel);
        }
        start += band_size;
        b += 1;
    }
}

/// One more band joins the banded ones once its bins, and no others, are related to what they
/// were by the band's value.
proof fn lemma_next_band<T, S>(
    x: Seq<T>,
    before: Seq<T>,
    after: Seq<T>,
    values: Seq<S>,
    widths: Seq<usize>,
    b: int,
    rel: spec_fn(T, S, T) -> bool,
)
    requires
        0 <= b < widths.len(),
        banded(x, values, widths, b, before, rel),
        after.len() == x.len(),
        erb::band_start(widths, b + 1) <= x.len(),
        forall|i: int|
            erb::band_start(widths, b) <= i < erb::band_start(widths, b + 1) ==> rel(
                before[i],
                values[b],
                #[trigger] after[i],
            ),
        forall|i: int| 0 <= i < erb::band_start(widths, b) ==> #[trigger] after[i] == before[i],
        forall|i: int|
            erb::band_start(widths, b + 1) <= i < x.len() ==> #[trigger] after[i] == before[i],
    ensures
        banded(x, values, widths, b + 1, after, rel),
{
    erb::lemma_band_start_monotonic(widths, 0, b);
    assert forall|c: int, i: int|
        #![trigger erb::in_band(widths, c, i)]
        0 <= c < b + 1 && erb::in_band(widths, c, i) implies rel(x[i], values[c], after[i]) by {
        erb::lemma_band_start_monotonic(widths, 0, c);
        if c < b {
            erb::lemma_band_start_monotonic(widths, c + 1, b);
            assert(after[i] == before[i]);
        } else {
            assert(before[i] == x[i]);
            assert(rel(before[i], values[b], after[i]));
        }
    }
    assert forall|i: int| erb::band_start(widths, b + 1) <= i < x.len() implies #[trigger] after[i]
        == x[i] by {
        assert(before[i] == x[i]);
    }
}

/// Writes to every bin of `out` the value of the band that the bin lies in. Bins beyond the
/// last band that has both a width and a value are left alone.
pub fn interp_band_gain<S: Sample>(out: &mut [S], band_e: &[S], erb_fb: &[usize])
    requires
        erb::band_start(erb_fb@, common_len(erb_fb@.len(), band_e@.len())) <= old(out)@.len(),
    ensures
        banded(
            old(out)@,
            band_e@,
            erb_fb@,
            common_len(erb_fb@.len(), band_e@.len()),
            final(out)@,
            |x: S, value: S, r: S| r == value,
        ),
{
    let n: usize = if erb_fb.len() < band_e.len() {
        erb_fb.len()
    } else {
        band_e.len()
    };
    let ghost rel = |x: S, value: S, r: S| r == value;
    let len: usize = out.len();
    let mut start: usize = 0;
    let mut b: usize = 0;
    while b < n
        invariant
            b <= n,
            len == out@.len(),
            n == common_len(erb_fb@.len(), band_e@.len()),
            erb::band_start(erb_fb@, n as int) <= out@.len(),
            start == erb::band_start(erb_fb@, b as int),
            rel == (|x: S, value: S, r: S| r == value),
            banded(old(out)@, band_e@, erb_fb@, b as int, out@, rel),
        decreases n - b,
    {
        let band_size: usize = erb_fb[b];
        let value: S = band_e[b];
        let ghost before = out@;
        proof {
            erb::lemma_band_start_monotonic(erb_fb@, b + 1, n as int);
        }
        let mut j: usize = 0;
        while j < band_size
            invariant
                j <= band_size,
                len == out@.len(),
                start + band_size <= out@.len(),
                out@.len() == before.len(),
                forall|i: int| 0 <= i < start ==> #[trigger] out@[i] == before[i],
                forall|i: int| start <= i < start + j ==> #[trigger] out@[i] == value,
                forall|i: int| start + j <= i < out@.len() ==> #[trigger] out@[i] == before[i],
            decreases band_size - j,
        {
            out[start + j] = value;
            j += 1;
        }
        proof {
            lemma_next_band(old(out)@, before, out@, band_e@, erb_fb@, b as int, rel);
        }
        start += band_size;
        b += 1;
    }
}

/// Applies to every bin of a spectrum the gain of the band that the bin lies in: both parts of
/// the bin are multiplied by it.
pub fn apply_band_gain<S: Sample>(out: &mut [Complex<S>], band_e: &[S], erb_fb: &[usize])
    requires
        erb::band_start(erb_fb@, common_len(erb_fb@.len(), band_e@.len())) <= old(out)@.len(),
    ensures
        banded(
            old(out)@,
            band_e@,
            erb_fb@,
            common_len(erb_fb@.len(), band_e@.len()),
            final(out)@,
            |z: Complex<S>, gain: S, r: Complex<S>| crate::complex::complex_scales(z, gain, r),
        ),
{
    apply_interp_band_gain(out, band_e, erb_fb);
}

/// Both ways to apply gains to the bins of a spectrum leave the same bins.
pub proof fn both_ways_to_apply_gains_agree<S: Sample>(
    x: Seq<Complex<S>>,
    band_e: Seq<S>,
    erb_fb: Seq<usize>,
    a: Seq<Complex<S>>,
    b: Seq<Complex<S>>,
)
    requires
        sample::has_one_value::<S>(),
        erb::band_start(erb_fb, common_len(erb_fb.len(), band_e.len())) <= x.len(),
        banded(
            x,
            band_e,
            erb_fb,
            common_len(erb_fb.len(), band_e.len()),
            a,
            |z: Complex<S>, gain: S, r: Complex<S>|
                call_ensures(Complex::<S>::scaled, (z, gain), r),
        ),
        banded(
            x,
            band_e,
            erb_fb,
            common_len(erb_fb.len(), band_e.len()),
            b,
            |z: Complex<S>, gain: S, r: Complex<S>| crate::complex::complex_scales(z, gain, r),
        ),
    ensures
        a == b,
        forall|i: int|
            erb::band_start(erb_fb, common_len(erb_fb.len(), band_e.len())) <= i < x.len()
                ==> #[trigger] a[i] == x[i],
{
    let n = common_len(erb_fb.len(), band_e.len());
    assert forall|i: int| 0 <= i < x.len() implies a[i] == b[i] by {
        if i < erb::band_start(erb_fb, n) {
            erb::bands_leave_no_gap(erb_fb, n, i);
            let band = choose|band: int| 0 <= band < n && erb::in_band(erb_fb, band, i);
            assert(erb::in_band(erb_fb, band, i));
            assert(call_ensures(Complex::<S>::scaled, (x[i], band_e[band]), a[i]));
            assert(crate::complex::complex_scales(x[i], band_e[band], a[i]));
            assert(crate::complex::complex_scales(x[i], band_e[band], b[i]));
        } else {
            assert(a[i] == x[i] && b[i] == x[i]);
        }
    }
    assert(a =~= b);
}

} // verus!
