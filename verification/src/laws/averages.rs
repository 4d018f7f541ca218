//! Running averages and what is measured against them.
use vstd::prelude::*;

use crate::complex;
use crate::complex::Complex;
use crate::laws::numbers;
use crate::laws::numbers::Numbers;
use crate::norm;
use crate::sample::Sample;

verus! {

/// The average moves to `x + alpha (s - x)`, whichever of the two is greater.
pub proof fn average_moves_towards_the_input<S: Sample>(
    n: Numbers<S>,
    x: S,
    s: S,
    alpha: S,
    r: S,
)
    requires
        n.calculate(),
        call_ensures(norm::smoothed::<S>, (x, s, alpha), r),
    ensures
        (n.value)(r) == (n.value)(x) + (n.value)(alpha) * ((n.value)(s) - (n.value)(x)),
{
    lemma_smoothed(n, x, s, alpha, r);
}

proof fn lemma_smoothed<S: Sample>(n: Numbers<S>, x: S, s: S, alpha: S, r: S)
    requires
        n.calculate(),
        norm::smoothed_is(x, s, alpha, r),
    ensures
        (n.value)(r) == (n.value)(x) + (n.value)(alpha) * ((n.value)(s) - (n.value)(x)),
{
    let vx = (n.value)(x);
    let vs = (n.value)(s);
    let va = (n.value)(alpha);
    assert(vx * (1real - va) + vs * va == vx + va * (vs - vx)) by (nonlinear_arith);
}

/// An average lies between the input and the last average, the nearer to the input the smaller
/// `alpha` is: an input below the average brings it down, one above brings it up.
pub proof fn average_falls_as_it_rises<S: Sample>(n: Numbers<S>, x: S, s: S, alpha: S, r: S)
    requires
        n.calculate(),
        call_ensures(norm::smoothed::<S>, (x, s, alpha), r),
        0real <= (n.value)(alpha) < 1real,
    ensures
        (n.value)(x) < (n.value)(s) ==> (n.value)(x) <= (n.value)(r) < (n.value)(s),
        (n.value)(x) > (n.value)(s) ==> (n.value)(x) >= (n.value)(r) > (n.value)(s),
        (n.value)(x) == (n.value)(s) ==> (n.value)(r) == (n.value)(s),
{
    lemma_smoothed(n, x, s, alpha, r);
    let vx = (n.value)(x);
    let vs = (n.value)(s);
    let va = (n.value)(alpha);
    let vr = (n.value)(r);
    if vx < vs {
        assert(vx <= vx + va * (vs - vx) < vs) by (nonlinear_arith)
            requires
                vx < vs,
                0real <= va < 1real,
        ;
    } else if vx > vs {
        assert(vx >= vx + va * (vs - vx) > vs) by (nonlinear_arith)
            requires
                vx > vs,
                0real <= va < 1real,
        ;
    } else {
        assert(va * (vs - vx) == 0real) by (nonlinear_arith)
            requires
                vs == vx,
        ;
    }
}

/// `a` to the power `k`.
pub open spec fn power(a: real, k: nat) -> real
    decreases k,
{
    if k == 0 {
        1real
    } else {
        a * power(a, (k - 1) as nat)
    }
}

/// Under a constant input the distance of the average from it shrinks by the factor `alpha` with
/// every step.
pub proof fn average_settles_on_a_constant_input<S: Sample>(
    n: Numbers<S>,
    x: S,
    alpha: S,
    averages: Seq<S>,
    k: nat,
)
    requires
        n.calculate(),
        forall|i: int|
            0 <= i < averages.len() - 1 ==> #[trigger] call_ensures(
                norm::smoothed::<S>,
                (x, averages[i], alpha),
                averages[i + 1],
            ),
        k < averages.len(),
    ensures
        (n.value)(averages[k as int]) - (n.value)(x) == power((n.value)(alpha), k) * ((n.value)(
            averages[0],
        ) - (n.value)(x)),
    decreases k,
{
    let vx = (n.value)(x);
    let va = (n.value)(alpha);
    let first = (n.value)(averages[0]) - vx;
    if k == 0 {
        assert(1real * first == first) by (nonlinear_arith);
    } else {
        let j = (k - 1) as nat;
        average_settles_on_a_constant_input(n, x, alpha, averages, j);
        assert(call_ensures(
            norm::smoothed::<S>,
            (x, averages[j as int], alpha),
            averages[j as int + 1],
        ));
        lemma_smoothed(n, x, averages[j as int], alpha, averages[k as int]);
        let p = power(va, j);
        assert(va * (p * first) == (va * p) * first) by (nonlinear_arith);
    }
}

/// The magnitudes of bins are measured against their averages: the new average and the excess add
/// up to the magnitude.
pub proof fn bins_are_measured_against_their_average<S: Sample>(
    n: Numbers<S>,
    xs: &[Complex<S>],
    xout: &mut [S],
    state: &mut [S],
    alpha: S,
    i: int,
)
    requires
        n.calculate(),
        n.take_roots(),
        xs@.len() == old(state)@.len(),
        old(xout)@.len() == old(state)@.len(),
        call_ensures(norm::band_mean_norm_freq::<S>, (xs, xout, state, alpha), ()),
        0 <= i < xs@.len(),
    ensures
        final(state)@.len() == xs@.len(),
        final(xout)@.len() == xs@.len(),
        ({
            let size = (n.value)(final(xout)@[i]) + (n.value)(final(state)@[i]);
            &&& size >= 0real
            &&& size * size == (n.value)(xs@[i].re) * (n.value)(xs@[i].re) + (n.value)(xs@[i].im)
                * (n.value)(xs@[i].im)
            &&& (n.value)(final(state)@[i]) == size + (n.value)(alpha) * ((n.value)(old(state)@[i])
                - size)
        }),
{
    let x = xs@[i];
    let s = old(state)@[i];
    let s2 = final(state)@[i];
    let out = final(xout)@[i];
    assert(norm::mean_norm_freq_is(x, s, alpha, s2, out));
    let size = choose|size: S|
        {
            &&& #[trigger] complex::norm_is(x, size)
            &&& norm::smoothed_is(size, s, alpha, s2)
            &&& crate::sample::subtracts(size, s2, out)
        };
    lemma_smoothed(n, size, s, alpha, s2);
}

/// Levels are measured against their averages: forty times what is left of a level and the new
/// average add up to the level.
pub proof fn levels_are_measured_against_their_average<S: Sample>(
    n: Numbers<S>,
    xs: &mut [S],
    state: &mut [S],
    alpha: S,
    i: int,
)
    requires
        n.calculate(),
        old(xs)@.len() == old(state)@.len(),
        call_ensures(norm::band_mean_norm_erb::<S>, (xs, state, alpha), ()),
        0 <= i < old(xs)@.len(),
    ensures
        final(state)@.len() == old(xs)@.len(),
        final(xs)@.len() == old(xs)@.len(),
        40real * (n.value)(final(xs)@[i]) + (n.value)(final(state)@[i]) == (n.value)(old(xs)@[i]),
        (n.value)(final(state)@[i]) == (n.value)(old(xs)@[i]) + (n.value)(alpha) * ((n.value)(
            old(state)@[i],
        ) - (n.value)(old(xs)@[i])),
{
    let x = old(xs)@[i];
    let s = old(state)@[i];
    assert(norm::mean_norm_erb_is(x, s, alpha, final(state)@[i], final(xs)@[i]));
    lemma_level(n, x, s, alpha, final(state)@[i], final(xs)@[i]);
}

/// One level against its average.
pub proof fn lemma_level<S: Sample>(n: Numbers<S>, x: S, s: S, alpha: S, s2: S, out: S)
    requires
        n.calculate(),
        norm::mean_norm_erb_is(x, s, alpha, s2, out),
    ensures
        40real * (n.value)(out) + (n.value)(s2) == (n.value)(x),
        (n.value)(s2) == (n.value)(x) + (n.value)(alpha) * ((n.value)(s) - (n.value)(x)),
{
    reveal_with_fuel(numbers::ten_to, 2);
    lemma_smoothed(n, x, s, alpha, s2);
    let (excess, forty) = choose|excess: S, forty: S|
        {
            &&& norm::smoothed_is(x, s, alpha, s2)
            &&& #[trigger] crate::sample::subtracts(x, s2, excess)
            &&& #[trigger] crate::sample::is_decimal(40, 0, forty)
            &&& crate::sample::divides(excess, forty, out)
        };
    let f = (n.value)(forty);
    assert(f == 40real) by (nonlinear_arith)
        requires
            f * 1real == 40real,
    ;
    let o = (n.value)(out);
    assert(o * f == 40real * o) by (nonlinear_arith)
        requires
            f == 40real,
    ;
}

/// One bin against its average: the average moves towards the bin's magnitude, and the bin is
/// divided by the average's root.
pub proof fn lemma_bin<S: Sample>(
    n: Numbers<S>,
    x: Complex<S>,
    s: S,
    alpha: S,
    s2: S,
    out: Complex<S>,
)
    requires
        n.calculate(),
        n.take_roots(),
        norm::unit_norm_is(x, s, alpha, s2, out),
    ensures
        exists|size: real|
            {
                &&& size >= 0real
                &&& #[trigger] numbers::square(size) == (n.value)(x.re) * (n.value)(x.re)
                    + (n.value)(x.im) * (n.value)(x.im)
                &&& (n.value)(s2) == size + (n.value)(alpha) * ((n.value)(s) - size)
            },
        (n.value)(s2) > 0real ==> exists|root: real|
            {
                &&& root > 0real
                &&& #[trigger] numbers::square(root) == (n.value)(s2)
                &&& (n.value)(out.re) * root == (n.value)(x.re)
                &&& (n.value)(out.im) * root == (n.value)(x.im)
            },
        exists|root: S|
            {
                &&& #[trigger] crate::sample::roots(s2, root)
                &&& crate::sample::divides(x.re, root, out.re)
                &&& crate::sample::divides(x.im, root, out.im)
            },
{
    let (sz, root) = choose|size: S, root: S|
        {
            &&& #[trigger] complex::norm_is(x, size)
            &&& norm::smoothed_is(size, s, alpha, s2)
            &&& #[trigger] crate::sample::roots(s2, root)
            &&& complex::complex_shrinks(x, root, out)
        };
    lemma_smoothed(n, sz, s, alpha, s2);
    let r = (n.value)(root);
    let size = (n.value)(sz);
    assert(numbers::square(size) == size * size);
    if (n.value)(s2) > 0real {
        assert(r != 0real) by (nonlinear_arith)
            requires
                r * r > 0real,
        ;
        assert(numbers::square(r) == (n.value)(s2));
    }
}

/// Bins are divided by the roots of their averages.
pub proof fn bins_are_divided_by_the_root_of_their_average<S: Sample>(
    n: Numbers<S>,
    xs: &mut [Complex<S>],
    state: &mut [S],
    alpha: S,
    i: int,
)
    requires
        n.calculate(),
        n.take_roots(),
        old(xs)@.len() == old(state)@.len(),
        call_ensures(norm::band_unit_norm::<S>, (xs, state, alpha), ()),
        0 <= i < old(xs)@.len(),
    ensures
        final(state)@.len() == old(xs)@.len(),
        final(xs)@.len() == old(xs)@.len(),
        exists|size: real|
            {
                &&& size >= 0real
                &&& #[trigger] numbers::square(size) == (n.value)(old(xs)@[i].re) * (n.value)(
                    old(xs)@[i].re,
                )
                    + (n.value)(old(xs)@[i].im) * (n.value)(old(xs)@[i].im)
                &&& (n.value)(final(state)@[i]) == size + (n.value)(alpha) * ((n.value)(
                    old(state)@[i],
                ) - size)
            },
        (n.value)(final(state)@[i]) > 0real ==> exists|root: real|
            {
                &&& root > 0real
                &&& #[trigger] numbers::square(root) == (n.value)(final(state)@[i])
                &&& (n.value)(final(xs)@[i].re) * root == (n.value)(old(xs)@[i].re)
                &&& (n.value)(final(xs)@[i].im) * root == (n.value)(old(xs)@[i].im)
            },
        exists|root: S|
            {
                &&& #[trigger] crate::sample::roots(final(state)@[i], root)
                &&& crate::sample::divides(old(xs)@[i].re, root, final(xs)@[i].re)
                &&& crate::sample::divides(old(xs)@[i].im, root, final(xs)@[i].im)
            },
{
    assert(norm::unit_norm_is(
        old(xs)@[i],
        old(state)@[i],
        alpha,
        final(state)@[i],
        final(xs)@[i],
    ));
    lemma_bin(n, old(xs)@[i], old(state)@[i], alpha, final(state)@[i], final(xs)@[i]);
}

/// The transposed form holds all real parts, then all imaginary parts, of the same bins.
pub proof fn transposed_bins_are_divided_by_the_root_of_their_average<S: Sample>(
    n: Numbers<S>,
    xs: &[Complex<S>],
    state: &mut [S],
    alpha: S,
    out: &mut [S],
    i: int,
)
    requires
        n.calculate(),
        n.take_roots(),
        xs@.len() == old(state)@.len(),
        xs@.len() == old(out)@.len() / 2,
        call_ensures(norm::band_unit_norm_t::<S>, (xs, state, alpha, out), ()),
        0 <= i < xs@.len(),
    ensures
        final(out)@.len() == old(out)@.len(),
        exists|size: real|
            {
                &&& size >= 0real
                &&& #[trigger] numbers::square(size) == (n.value)(xs@[i].re) * (n.value)(xs@[i].re)
                    + (n.value)(xs@[i].im) * (n.value)(xs@[i].im)
                &&& (n.value)(final(state)@[i]) == size + (n.value)(alpha) * ((n.value)(
                    old(state)@[i],
                ) - size)
            },
        (n.value)(final(state)@[i]) > 0real ==> exists|root: real|
            {
                &&& root > 0real
                &&& #[trigger] numbers::square(root) == (n.value)(final(state)@[i])
                &&& (n.value)(final(out)@[i]) * root == (n.value)(xs@[i].re)
                &&& (n.value)(final(out)@[xs@.len() + i]) * root == (n.value)(xs@[i].im)
            },
        exists|root: S|
            {
                &&& #[trigger] crate::sample::roots(final(state)@[i], root)
                &&& crate::sample::divides(xs@[i].re, root, final(out)@[i])
                &&& crate::sample::divides(xs@[i].im, root, final(out)@[xs@.len() + i])
            },
{
    let bin = norm::transposed_bin(final(out)@, xs@.len() as int, i);
    assert(norm::unit_norm_is(xs@[i], old(state)@[i], alpha, final(state)@[i], bin));
    lemma_bin(n, xs@[i], old(state)@[i], alpha, final(state)@[i], bin);
}

} // verus!
