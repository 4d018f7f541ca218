//! Running normalisation: each bin or band is compared with, or divided by, an exponentially
//! decaying average of its own past. The averages live in a `state` slice with one value per
//! bin or band; `alpha` is the share that the past keeps.
use vstd::prelude::*;

use crate::complex;
use crate::complex::Complex;
use crate::sample;
use crate::sample::Sample;

verus! {

/// `r` is a value of `x * (1 - alpha) + s * alpha`: the average `s` moved towards `x`.
pub open spec fn smoothed_is<S: Sample>(x: S, s: S, alpha: S, r: S) -> bool {
    exists|one: S, rest: S, fresh: S, past: S|
        {
            &&& #[trigger] sample::is_one(one)
            &&& #[trigger] sample::subtracts(one, alpha, rest)
            &&& #[trigger] sample::multiplies(x, rest, fresh)
            &&& #[trigger] sample::multiplies(s, alpha, past)
            &&& sample::adds(fresh, past, r)
        }
}

/// The average `s` moved towards `x`.
pub fn smoothed<S: Sample>(x: S, s: S, alpha: S) -> (r: S)
    ensures
        smoothed_is(x, s, alpha, r),
{
    x.times(S::one().minus(alpha)).plus(s.times(alpha))
}

/// One bin of [`band_mean_norm_freq`]: from the bin `x` and the average `s`, the new average
/// `s2` of the bin's magnitude, and the amount `out` by which the magnitude exceeds it.
pub open spec fn mean_norm_freq_is<S: Sample>(x: Complex<S>, s: S, alpha: S, s2: S, out: S) -> bool {
    exists|size: S|
        {
            &&& #[trigger] complex::norm_is(x, size)
            &&& smoothed_is(size, s, alpha, s2)
            &&& sample::subtracts(size, s2, out)
        }
}

/// One band of [`band_mean_norm_erb`]: from the level `x` and the average `s`, the new average
/// `s2` of the level, and a fortieth, `out`, of the amount by which the level exceeds it.
pub open spec fn mean_norm_erb_is<S: Sample>(x: S, s: S, alpha: S, s2: S, out: S) -> bool {
    exists|excess: S, forty: S|
        {
            &&& smoothed_is(x, s, alpha, s2)
            &&& #[trigger] sample::subtracts(x, s2, excess)
            &&& #[trigger] sample::is_decimal(40, 0, forty)
            &&& sample::divides(excess, forty, out)
        }
}

/// One bin of [`band_unit_norm`]: from the bin `x` and the average `s`, the new average `s2` of
/// the bin's magnitude, and the bin `out` divided by the square root of that average.
pub open spec fn unit_norm_is<S: Sample>(
    x: Complex<S>,
    s: S,
    alpha: S,
    s2: S,
    out: Complex<S>,
) -> bool {
    exists|size: S, root: S|
        {
            &&& #[trigger] complex::norm_is(x, size)
            &&& smoothed_is(size, s, alpha, s2)
            &&& #[trigger] sample::roots(s2, root)
            &&& complex::complex_shrinks(x, root, out)
        }
}

/// Moves the running averages towards the magnitudes of `xs`, and writes to `xout` by how much
/// each magnitude exceeds its average.
pub fn band_mean_norm_freq<S: Sample>(
    xs: &[Complex<S>],
    xout: &mut [S],
    state: &mut [S],
    alpha: S,
)
    requires
        xs@.len() == old(state)@.len(),
        old(xout)@.len() == old(state)@.len(),
    ensures
        final(state)@.len() == xs@.len(),
        final(xout)@.len() == xs@.len(),
        forall|i: int|
            0 <= i < xs@.len() ==> mean_norm_freq_is(
                xs@[i],
                old(state)@[i],
                alpha,
                #[trigger] final(state)@[i],
                final(xout)@[i],
            ),
{
    let n: usize = xs.len();
    let mut i: usize = 0;
    while i < n
        invariant
            i <= n,
            n == xs@.len(),
            n == old(state)@.len(),
            n == state@.len(),
            n == xout@.len(),
            forall|j: int|
                0 <= j < i ==> mean_norm_freq_is(
                    xs@[j],
                    old(state)@[j],
                    alpha,
                    #[trigger] state@[j],
                    xout@[j],
                ),
            forall|j: int| i <= j < n ==> #[trigger] state@[j] == old(state)@[j],
        decreases n - i,
    {
        let size: S = xs[i].norm();
        let s: S = smoothed(size, state[i], alpha);
        state[i] = s;
        xout[i] = size.minus(s);
        assert(mean_norm_freq_is(
            xs@[i as int],
            old(state)@[i as int],
            alpha,
            state@[i as int],
            xout@[i as int],
        ));
        i += 1;
    }
}

/// Moves the running averages towards the levels in `xs`, and replaces each level by a fortieth
/// of the amount by which it exceeds its average.
pub fn band_mean_norm_erb<S: Sample>(xs: &mut [S], state: &mut [S], alpha: S)
    requires
        old(xs)@.len() == old(state)@.len(),
    ensures
        final(state)@.len() == old(xs)@.len(),
        final(xs)@.len() == old(xs)@.len(),
        forall|i: int|
            0 <= i < old(xs)@.len() ==> mean_norm_erb_is(
                old(xs)@[i],
                old(state)@[i],
                alpha,
                #[trigger] final(state)@[i],
                final(xs)@[i],
            ),
{
    let n: usize = xs.len();
    let mut i: usize = 0;
    while i < n
        invariant
            i <= n,
            n == old(xs)@.len(),
            n == old(state)@.len(),
            n == state@.len(),
            n == xs@.len(),
            forall|j: int|
                0 <= j < i ==> mean_norm_erb_is(
                    old(xs)@[j],
                    old(state)@[j],
                    alpha,
                    #[trigger] state@[j],
                    xs@[j],
                ),
            forall|j: int| i <= j < n ==> #[trigger] state@[j] == old(state)@[j],
            forall|j: int| i <= j < n ==> #[trigger] xs@[j] == old(xs)@[j],
        decreases n - i,
    {
        let s: S = smoothed(xs[i], state[i], alpha);
        state[i] = s;
        xs[i] = xs[i].minus(s).over(S::decimal(40, 0));
        assert(mean_norm_erb_is(
            old(xs)@[i as int],
            old(state)@[i as int],
            alpha,
            state@[i as int],
            xs@[i as int],
        ));
        i += 1;
    }
}

/// Moves the running averages towards the magnitudes of `xs`, and divides each bin by the
/// square root of its average.
pub fn band_unit_norm<S: Sample>(xs: &mut [Complex<S>], state: &mut [S], alpha: S)
    requires
        old(xs)@.len() == old(state)@.len(),
    ensures
        final(state)@.len() == old(xs)@.len(),
        final(xs)@.len() == old(xs)@.len(),
        forall|i: int|
            0 <= i < old(xs)@.len() ==> unit_norm_is(
                old(xs)@[i],
                old(state)@[i],
                alpha,
                #[trigger] final(state)@[i],
                final(xs)@[i],
            ),
{
    let n: usize = xs.len();
    let mut i: usize = 0;
    while i < n
        invariant
            i <= n,
            n == old(xs)@.len(),
            n == old(state)@.len(),
            n == state@.len(),
            n == xs@.len(),
            forall|j: int|
                0 <= j < i ==> unit_norm_is(
                    old(xs)@[j],
                    old(state)@[j],
                    alpha,
                    #[trigger] state@[j],
                    xs@[j],
                ),
            forall|j: int| i <= j < n ==> #[trigger] state@[j] == old(state)@[j],
            forall|j: int| i <= j < n ==> #[trigger] xs@[j] == old(xs)@[j],
        decreases n - i,
    {
        let x: Complex<S> = xs[i];
        let s: S = smoothed(x.norm(), state[i], alpha);
        state[i] = s;
        xs[i] = x.shrunk(s.square_root());
        assert(unit_norm_is(
            old(xs)@[i as int],
            old(state)@[i as int],
            alpha,
            state@[i as int],
            xs@[i as int],
        ));
        i += 1;
    }
}

/// Bin `i` of a spectrum of `n` bins that is stored with all real parts first, followed by all
/// imaginary parts.
pub open spec fn transposed_bin<S>(out: Seq<S>, n: int, i: int) -> Complex<S> {
    Complex { re: out[i], im: out[n + i] }
}

/// [`band_unit_norm`] with a transposed result: `out` receives first all real parts of the
/// normalised bins, then all imaginary parts. A bin that is stored as a [`Complex`] has its two
/// parts side by side instead. The last place of an `out` of odd length is left alone.
pub fn band_unit_norm_t<S: Sample>(xs: &[Complex<S>], state: &mut [S], alpha: S, out: &mut [S])
    requires
        xs@.len() == old(state)@.len(),
        xs@.len() == old(out)@.len() / 2,
    ensures
        final(state)@.len() == xs@.len(),
        final(out)@.len() == old(out)@.len(),
        forall|i: int|
            0 <= i < xs@.len() ==> unit_norm_is(
                xs@[i],
                old(state)@[i],
                alpha,
                #[trigger] final(state)@[i],
                transposed_bin(final(out)@, xs@.len() as int, i),
            ),
        forall|i: int| 2 * xs@.len() <= i < old(out)@.len() ==> final(out)@[i] == old(out)@[i],
{
    let n: usize = xs.len();
    let len: usize = out.len();
    let mut i: usize = 0;
    while i < n
        invariant
            i <= n,
            n == xs@.len(),
            n == old(state)@.len(),
            n == state@.len(),
            len == out@.len(),
            len == old(out)@.len(),
            n == len / 2,
            forall|j: int|
                0 <= j < i ==> unit_norm_is(
                    xs@[j],
                    old(state)@[j],
                    alpha,
                    #[trigger] state@[j],
                    transposed_bin(out@, n as int, j),
                ),
            forall|j: int| i <= j < n ==> #[trigger] state@[j] == old(state)@[j],
            forall|j: int| 2 * n <= j < len ==> out@[j] == old(out)@[j],
        decreases n - i,
    {
        let s: S = smoothed(xs[i].norm(), state[i], alpha);
        state[i] = s;
        let z: Complex<S> = xs[i].shrunk(s.square_root());
        out[i] = z.re;
        out[n + i] = z.im;
        assert(unit_norm_is(xs@[i as int], old(state)@[i as int], alpha, s, z));
        assert(transposed_bin(out@, n as int, i as int) == z);
        i += 1;
    }
}

/// The transposed normalisation holds the same bins as the plain one: whatever bins and
/// averages the one may leave, the other may leave, laid out differently.
pub proof fn transposing_keeps_the_bins<S: Sample>(
    xs: Seq<Complex<S>>,
    state: Seq<S>,
    alpha: S,
    new_state: Seq<S>,
    out: Seq<S>,
    ys: Seq<Complex<S>>,
)
    requires
        ys.len() == xs.len(),
        forall|i: int|
            0 <= i < xs.len() ==> #[trigger] ys[i] == transposed_bin(out, xs.len() as int, i),
    ensures
        (forall|i: int|
            0 <= i < xs.len() ==> unit_norm_is(
                xs[i],
                state[i],
                alpha,
                #[trigger] new_state[i],
                transposed_bin(out, xs.len() as int, i),
            )) <==> (forall|i: int|
            0 <= i < xs.len() ==> unit_norm_is(
                xs[i],
                state[i],
                alpha,
                #[trigger] new_state[i],
                ys[i],
            )),
{
    assert(forall|i: int|
        0 <= i < xs.len() ==> (#[trigger] new_state[i] == new_state[i] && ys[i] == transposed_bin(
            out,
            xs.len() as int,
            i,
        )));
}

} // verus!
