//! What is done to the bins of a spectrum band by band.
use vstd::prelude::*;

use crate::bands;
use crate::complex;
use crate::complex::Complex;
use crate::erb;
use crate::laws::numbers;
use crate::laws::numbers::Numbers;
use crate::sample;
use crate::sample::{Sample, Scalable};

verus! {

/// Bands follow each other from the first bin on: each starts where the one before it ends, and a
/// bin lies in a band if it lies between the two.
pub proof fn bands_follow_each_other(widths: Seq<usize>, b: int, i: int)
    requires
        0 <= b,
    ensures
        erb::band_start(widths, 0) == 0,
        erb::band_start(widths, b + 1) == erb::band_start(widths, b) + widths[b],
        erb::in_band(widths, b, i) <==> erb::band_start(widths, b) <= i < erb::band_start(
            widths,
            b,
        ) + widths[b],
{
}

/// The product of two bins that their correlation adds up: that of their real parts and that of
/// their imaginary parts.
pub open spec fn bin_product<S: Sample>(n: Numbers<S>, a: Complex<S>, b: Complex<S>) -> real {
    (n.value)(a.re) * (n.value)(b.re) + (n.value)(a.im) * (n.value)(b.im)
}

proof fn lemma_products<S: Sample>(
    n: Numbers<S>,
    x: Seq<Complex<S>>,
    p: Seq<Complex<S>>,
    lo: int,
    hi: int,
)
    ensures
        numbers::total(|i: int| bin_product(n, x[i], p[i]), lo, hi) == numbers::total(
            |i: int|
                (n.value)(x[i].re) * (n.value)(p[i].re) + (n.value)(x[i].im) * (n.value)(p[i].im),
            lo,
            hi,
        ),
{
    numbers::lemma_total_alike(
        |i: int| bin_product(n, x[i], p[i]),
        |i: int|
            (n.value)(x[i].re) * (n.value)(p[i].re) + (n.value)(x[i].im) * (n.value)(p[i].im),
        lo,
        hi,
    );
}

proof fn lemma_dot<S: Sample>(
    n: Numbers<S>,
    x: Seq<Complex<S>>,
    p: Seq<Complex<S>>,
    lo: int,
    len: int,
    acc: S,
)
    requires
        n.calculate(),
        0 <= len,
        bands::dot_is(x, p, lo, len, acc),
    ensures
        (n.value)(acc) == numbers::total(|i: int| bin_product(n, x[i], p[i]), lo, lo + len),
    decreases len,
{
    let f = |i: int| bin_product(n, x[i], p[i]);
    if len > 0 {
        let prev = choose|prev: S|
            bands::dot_is(x, p, lo, len - 1, prev) && #[trigger] bands::dot_step_is(
                prev,
                x[lo + len - 1],
                p[lo + len - 1],
                acc,
            );
        lemma_dot(n, x, p, lo, len - 1, prev);
        assert(f(lo + len - 1) == bin_product(n, x[lo + len - 1], p[lo + len - 1]));
        assert(numbers::total(f, lo, lo + len) == numbers::total(f, lo, lo + len - 1) + f(
            lo + len - 1,
        ));
    }
}

proof fn lemma_reciprocal<S: Sample>(n: Numbers<S>, len: usize, k: S)
    requires
        n.calculate(),
        bands::reciprocal_is(len, k),
        len > 0,
    ensures
        (n.value)(k) * (len as real) == 1real,
{
}

/// One over a count, times the count, is one.
pub proof fn reciprocal_times_count_is_one<S: Sample>(n: Numbers<S>, len: usize, k: S)
    requires
        n.calculate(),
        call_ensures(bands::reciprocal::<S>, (len,), k),
        len > 0,
    ensures
        (n.value)(k) * (len as real) == 1real,
{
    lemma_reciprocal(n, len, k);
}

/// The sum over a run of bins.
pub proof fn run_of_bins_is_added_up<S: Sample>(
    n: Numbers<S>,
    x: &[Complex<S>],
    p: &[Complex<S>],
    lo: usize,
    len: usize,
    sum: S,
)
    requires
        n.calculate(),
        lo + len <= x@.len(),
        lo + len <= p@.len(),
        call_ensures(bands::compute_band_corr_inner::<S>, (x, p, lo, len), sum),
    ensures
        (n.value)(sum) == numbers::total(
            |i: int|
                (n.value)(x@[i].re) * (n.value)(p@[i].re) + (n.value)(x@[i].im) * (n.value)(
                    p@[i].im,
                ),
            lo as int,
            lo + len,
        ),
{
    lemma_dot(n, x@, p@, lo as int, len as int, sum);
    lemma_products(n, x@, p@, lo as int, lo + len);
}

/// A band's correlation, times its width, is the sum of the products of its bins.
pub proof fn lemma_band_mean_product<S: Sample>(
    n: Numbers<S>,
    x: Seq<Complex<S>>,
    p: Seq<Complex<S>>,
    lo: int,
    len: usize,
    r: S,
)
    requires
        n.calculate(),
        bands::band_corr_is(x, p, lo, len, r),
        len > 0,
    ensures
        (n.value)(r) * (len as real) == numbers::total(
            |i: int| bin_product(n, x[i], p[i]),
            lo,
            lo + len,
        ),
{
    let (sum, k) = choose|sum: S, k: S|
        {
            &&& #[trigger] bands::dot_is(x, p, lo, len as int, sum)
            &&& bands::reciprocal_is(len, k)
            &&& #[trigger] sample::multiplies(sum, k, r)
        };
    lemma_dot(n, x, p, lo, len as int, sum);
    lemma_reciprocal(n, len, k);
    let vs = (n.value)(sum);
    let vk = (n.value)(k);
    let vl = len as real;
    assert((vs * vk) * vl == vs) by (nonlinear_arith)
        requires
            vk * vl == 1real,
    ;
}

/// The correlation of each band, times its width, is the sum of the products of its bins.
pub proof fn correlation_is_the_mean_product<S: Sample>(
    n: Numbers<S>,
    out: &mut [S],
    x: &[Complex<S>],
    p: &[Complex<S>],
    erb_fb: &[usize],
    b: int,
)
    requires
        n.calculate(),
        erb_fb@.len() == old(out)@.len(),
        x@.len() == p@.len(),
        erb::band_start(erb_fb@, erb_fb@.len() as int) <= x@.len(),
        call_ensures(bands::compute_band_corr::<S>, (out, x, p, erb_fb), ()),
        0 <= b < erb_fb@.len(),
        erb_fb@[b] > 0,
    ensures
        final(out)@.len() == erb_fb@.len(),
        (n.value)(final(out)@[b]) * (erb_fb@[b] as real) == numbers::total(
            |i: int|
                (n.value)(x@[i].re) * (n.value)(p@[i].re) + (n.value)(x@[i].im) * (n.value)(
                    p@[i].im,
                ),
            erb::band_start(erb_fb@, b),
            erb::band_start(erb_fb@, b) + erb_fb@[b],
        ),
{
    assert(bands::band_corr_is(
        x@,
        p@,
        erb::band_start(erb_fb@, b),
        erb_fb@[b],
        final(out)@[b],
    ));
    lemma_band_mean_product(
        n,
        x@,
        p@,
        erb::band_start(erb_fb@, b),
        erb_fb@[b],
        final(out)@[b],
    );
    lemma_products(
        n,
        x@,
        p@,
        erb::band_start(erb_fb@, b),
        erb::band_start(erb_fb@, b) + erb_fb@[b],
    );
}

/// A band without bins has as its correlation zero, times one over zero, and as its value zero.
pub proof fn bands_without_bins_have_nothing_to_add_up<S: Sample>(
    out: &mut [S],
    x: &[Complex<S>],
    p: &[Complex<S>],
    means: &mut [S],
    y: &[S],
    erb_fb: &[usize],
    b: int,
)
    requires
        erb_fb@.len() == old(out)@.len(),
        erb_fb@.len() == old(means)@.len(),
        x@.len() == p@.len(),
        erb::band_start(erb_fb@, erb_fb@.len() as int) <= x@.len(),
        erb::band_start(erb_fb@, erb_fb@.len() as int) <= y@.len(),
        call_ensures(bands::compute_band_corr::<S>, (out, x, p, erb_fb), ()),
        call_ensures(bands::band_compr::<S>, (means, y, erb_fb), ()),
        0 <= b < erb_fb@.len(),
        erb_fb@[b] == 0,
    ensures
        exists|zero: S, one: S, count: S, k: S|
            {
                &&& sample::is_zero(zero)
                &&& sample::is_one(one)
                &&& sample::is_count(0, count)
                &&& #[trigger] sample::divides(one, count, k)
                &&& #[trigger] sample::multiplies(zero, k, final(out)@[b])
            },
        sample::is_zero(final(means)@[b]),
{
    let lo = erb::band_start(erb_fb@, b);
    assert(bands::band_corr_is(x@, p@, lo, erb_fb@[b], final(out)@[b]));
    assert(bands::band_mean_is(y@, lo, erb_fb@[b], final(means)@[b]));
}

proof fn lemma_weighted<S: Sample>(n: Numbers<S>, x: Seq<S>, lo: int, len: int, k: S, acc: S)
    requires
        n.calculate(),
        0 <= len,
        bands::weighted_sum_is(x, lo, len, k, acc),
    ensures
        (n.value)(acc) == numbers::total(|i: int| (n.value)(x[i]), lo, lo + len) * (n.value)(k),
    decreases len,
{
    let f = |i: int| (n.value)(x[i]);
    let vk = (n.value)(k);
    if len > 0 {
        let prev = choose|prev: S|
            bands::weighted_sum_is(x, lo, len - 1, k, prev) && #[trigger] bands::weighted_step_is(
                prev,
                x[lo + len - 1],
                k,
                acc,
            );
        lemma_weighted(n, x, lo, len - 1, k, prev);
        let t = numbers::total(f, lo, lo + len - 1);
        let v = (n.value)(x[lo + len - 1]);
        assert(f(lo + len - 1) == v);
        assert(numbers::total(f, lo, lo + len) == t + v);
        assert(t * vk + v * vk == (t + v) * vk) by (nonlinear_arith);
    } else {
        assert(0real * vk == 0real) by (nonlinear_arith);
    }
}

/// The value of each band, times its width, is the sum of the values of its bins.
pub proof fn compression_is_the_mean_value<S: Sample>(
    n: Numbers<S>,
    out: &mut [S],
    x: &[S],
    erb_fb: &[usize],
    b: int,
)
    requires
        n.calculate(),
        erb_fb@.len() == old(out)@.len(),
        erb::band_start(erb_fb@, erb_fb@.len() as int) <= x@.len(),
        call_ensures(bands::band_compr::<S>, (out, x, erb_fb), ()),
        0 <= b < erb_fb@.len(),
        erb_fb@[b] > 0,
    ensures
        final(out)@.len() == erb_fb@.len(),
        (n.value)(final(out)@[b]) * (erb_fb@[b] as real) == numbers::total(
            |i: int| (n.value)(x@[i]),
            erb::band_start(erb_fb@, b),
            erb::band_start(erb_fb@, b) + erb_fb@[b],
        ),
{
    let lo = erb::band_start(erb_fb@, b);
    let len = erb_fb@[b];
    let r = final(out)@[b];
    assert(bands::band_mean_is(x@, lo, len, r));
    let k = choose|k: S|
        bands::reciprocal_is(len, k) && #[trigger] bands::weighted_sum_is(x@, lo, len as int, k, r);
    lemma_reciprocal(n, len, k);
    lemma_weighted(n, x@, lo, len as int, k, r);
    let t = numbers::total(|i: int| (n.value)(x@[i]), lo, lo + len);
    let vk = (n.value)(k);
    let vl = len as real;
    assert((t * vk) * vl == t) by (nonlinear_arith)
        requires
            vk * vl == 1real,
    ;
}

/// Every bin of a band is multiplied by the band's gain, both parts of it; bins that lie in no
/// band with a gain stay as they are.
pub proof fn gains_multiply_the_bins_of_their_bands<S: Sample>(
    n: Numbers<S>,
    out: &mut [Complex<S>],
    band_e: &[S],
    erb_fb: &[usize],
    b: int,
    i: int,
)
    requires
        n.calculate(),
        erb::band_start(erb_fb@, bands::common_len(erb_fb@.len(), band_e@.len())) <= old(
            out,
        )@.len(),
        call_ensures(bands::apply_band_gain::<S>, (out, band_e, erb_fb), ()),
        0 <= i < old(out)@.len(),
        0 <= b,
    ensures
        final(out)@.len() == old(out)@.len(),
        b < erb_fb@.len() && b < band_e@.len() && erb::band_start(erb_fb@, b) <= i
            < erb::band_start(erb_fb@, b) + erb_fb@[b] ==> {
            &&& (n.value)(final(out)@[i].re) == (n.value)(old(out)@[i].re) * (n.value)(band_e@[b])
            &&& (n.value)(final(out)@[i].im) == (n.value)(old(out)@[i].im) * (n.value)(band_e@[b])
        },
        (forall|c: int|
            0 <= c < erb_fb@.len() && c < band_e@.len() ==> !(#[trigger] erb::band_start(
                erb_fb@,
                c,
            ) <= i < erb::band_start(erb_fb@, c) + erb_fb@[c])) ==> final(out)@[i] == old(
            out,
        )@[i],
{
    let k = bands::common_len(erb_fb@.len(), band_e@.len());
    if b < erb_fb@.len() && b < band_e@.len() && erb::band_start(erb_fb@, b) <= i
        < erb::band_start(erb_fb@, b) + erb_fb@[b] {
        assert(erb::in_band(erb_fb@, b, i));
        assert(complex::complex_scales(old(out)@[i], band_e@[b], final(out)@[i]));
    }
    if i < erb::band_start(erb_fb@, k) {
        erb::bands_leave_no_gap(erb_fb@, k, i);
        let c = choose|c: int| 0 <= c < k && erb::in_band(erb_fb@, c, i);
        assert(erb::in_band(erb_fb@, c, i));
        assert(erb::band_start(erb_fb@, c) <= i < erb::band_start(erb_fb@, c) + erb_fb@[c]);
    } else {
        assert(final(out)@[i] == old(out)@[i]);
    }
}

/// The same of anything that gains can be applied to.
pub proof fn gains_reach_everything_in_their_bands<T: Scalable<S>, S: Sample>(
    out: &mut [T],
    band_e: &[S],
    erb_fb: &[usize],
    b: int,
    i: int,
)
    requires
        erb::band_start(erb_fb@, bands::common_len(erb_fb@.len(), band_e@.len())) <= old(
            out,
        )@.len(),
        call_ensures(bands::apply_interp_band_gain::<T, S>, (out, band_e, erb_fb), ()),
        0 <= i < old(out)@.len(),
        0 <= b,
    ensures
        final(out)@.len() == old(out)@.len(),
        b < erb_fb@.len() && b < band_e@.len() && erb::band_start(erb_fb@, b) <= i
            < erb::band_start(erb_fb@, b) + erb_fb@[b] ==> call_ensures(
            T::scaled,
            (old(out)@[i], band_e@[b]),
            final(out)@[i],
        ),
        (forall|c: int|
            0 <= c < erb_fb@.len() && c < band_e@.len() ==> !(#[trigger] erb::band_start(
                erb_fb@,
                c,
            ) <= i < erb::band_start(erb_fb@, c) + erb_fb@[c])) ==> final(out)@[i] == old(
            out,
        )@[i],
{
    let k = bands::common_len(erb_fb@.len(), band_e@.len());
    if b < erb_fb@.len() && b < band_e@.len() && erb::band_start(erb_fb@, b) <= i
        < erb::band_start(erb_fb@, b) + erb_fb@[b] {
        assert(erb::in_band(erb_fb@, b, i));
    }
    if i < erb::band_start(erb_fb@, k) {
        erb::bands_leave_no_gap(erb_fb@, k, i);
        let c = choose|c: int| 0 <= c < k && erb::in_band(erb_fb@, c, i);
        assert(erb::in_band(erb_fb@, c, i));
        assert(erb::band_start(erb_fb@, c) <= i < erb::band_start(erb_fb@, c) + erb_fb@[c]);
    } else {
        assert(final(out)@[i] == old(out)@[i]);
    }
}

/// Every bin of a band gets the band's value; bins that lie in no band with a value stay as they
/// are.
pub proof fn values_are_written_to_the_bins_of_their_bands<S: Sample>(
    out: &mut [S],
    band_e: &[S],
    erb_fb: &[usize],
    b: int,
    i: int,
)
    requires
        erb::band_start(erb_fb@, bands::common_len(erb_fb@.len(), band_e@.len())) <= old(
            out,
        )@.len(),
        call_ensures(bands::interp_band_gain::<S>, (out, band_e, erb_fb), ()),
        0 <= i < old(out)@.len(),
        0 <= b,
    ensures
        final(out)@.len() == old(out)@.len(),
        b < erb_fb@.len() && b < band_e@.len() && erb::band_start(erb_fb@, b) <= i
            < erb::band_start(erb_fb@, b) + erb_fb@[b] ==> final(out)@[i] == band_e@[b],
        (forall|c: int|
            0 <= c < erb_fb@.len() && c < band_e@.len() ==> !(#[trigger] erb::band_start(
                erb_fb@,
                c,
            ) <= i < erb::band_start(erb_fb@, c) + erb_fb@[c])) ==> final(out)@[i] == old(
            out,
        )@[i],
{
    let k = bands::common_len(erb_fb@.len(), band_e@.len());
    if b < erb_fb@.len() && b < band_e@.len() && erb::band_start(erb_fb@, b) <= i
        < erb::band_start(erb_fb@, b) + erb_fb@[b] {
        assert(erb::in_band(erb_fb@, b, i));
    }
    if i < erb::band_start(erb_fb@, k) {
        erb::bands_leave_no_gap(erb_fb@, k, i);
        let c = choose|c: int| 0 <= c < k && erb::in_band(erb_fb@, c, i);
        assert(erb::in_band(erb_fb@, c, i));
        assert(erb::band_start(erb_fb@, c) <= i < erb::band_start(erb_fb@, c) + erb_fb@[c]);
    } else {
        assert(final(out)@[i] == old(out)@[i]);
    }
}

} // verus!
