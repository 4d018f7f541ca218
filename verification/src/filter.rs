//! The post filter: a second, gentler suppression of what a model left over.
use vstd::prelude::*;

use crate::complex;
use crate::complex::Complex;
use crate::sample;
use crate::sample::{Sample, Scalable};

verus! {

/// `g` is the gain that took the bin `noisy` to the bin `enh`: the quotient of their magnitudes,
/// kept between `10^-12` and one.
pub open spec fn gain_is<S: Sample>(noisy: Complex<S>, enh: Complex<S>, g: S) -> bool {
    exists|after: S, before: S, eps: S, base: S, ratio: S, one: S, capped: S, eps2: S|
        {
            &&& #[trigger] complex::norm_is(enh, after)
            &&& #[trigger] complex::norm_is(noisy, before)
            &&& sample::is_decimal(1, 12, eps)
            &&& #[trigger] sample::adds(before, eps, base)
            &&& #[trigger] sample::divides(after, base, ratio)
            &&& #[trigger] sample::is_one(one)
            &&& #[trigger] call_ensures(S::lesser, (ratio, one), capped)
            &&& #[trigger] sample::is_decimal(1, 12, eps2)
            &&& call_ensures(S::greater, (capped, eps2), g)
        }
}

/// `r` is a value of `g sin(pi g / 2)`.
pub open spec fn sine_gain_is<S: Sample>(g: S, r: S) -> bool {
    exists|pi: S, turn: S, two: S, angle: S, sine: S|
        {
            &&& #[trigger] sample::is_pi(pi)
            &&& #[trigger] sample::multiplies(g, pi, turn)
            &&& #[trigger] sample::is_decimal(2, 0, two)
            &&& #[trigger] sample::divides(turn, two, angle)
            &&& #[trigger] call_ensures(S::sine, (angle,), sine)
            &&& sample::multiplies(g, sine, r)
        }
}

/// `r` is a value of `((beta + 1) g / (1 + beta (g / gs)^2)) / g`.
pub open spec fn boost_is<S: Sample>(beta: S, g: S, gs: S, r: S) -> bool {
    exists|one: S, raised: S, top: S, one2: S, ratio: S, square: S, part: S, bottom: S, whole: S|
        {
            &&& #[trigger] sample::is_one(one)
            &&& #[trigger] sample::adds(beta, one, raised)
            &&& #[trigger] sample::multiplies(raised, g, top)
            &&& #[trigger] sample::is_one(one2)
            &&& #[trigger] sample::divides(g, gs, ratio)
            &&& #[trigger] call_ensures(S::squared, (ratio,), square)
            &&& #[trigger] sample::multiplies(beta, square, part)
            &&& #[trigger] sample::adds(one2, part, bottom)
            &&& #[trigger] sample::divides(top, bottom, whole)
            &&& sample::divides(whole, g, r)
        }
}

/// `r` is the bin `enh` after the post filter, which compares it with the bin `noisy`.
pub open spec fn post_filter_is<S: Sample>(
    noisy: Complex<S>,
    enh: Complex<S>,
    beta: S,
    r: Complex<S>,
) -> bool {
    exists|g: S, gs: S, boost: S|
        {
            &&& #[trigger] gain_is(noisy, enh, g)
            &&& #[trigger] sine_gain_is(g, gs)
            &&& #[trigger] boost_is(beta, g, gs, boost)
            &&& complex::complex_scales(enh, boost, r)
        }
}

/// How many bins the post filter treats: those in groups of four that both spectra have.
pub open spec fn filtered_bins(noisy: nat, enh: nat) -> int {
    let a = noisy as int / 4;
    let b = enh as int / 4;
    if a < b {
        4 * a
    } else {
        4 * b
    }
}

/// Filters the enhanced spectrum `enh` once more, with the noisy spectrum that it came from.
/// Bins are treated in groups of four; a shorter group at the end is left alone.
pub fn post_filter<S: Sample>(noisy: &[Complex<S>], enh: &mut [Complex<S>], beta: S)
    ensures
        final(enh)@.len() == old(enh)@.len(),
        forall|i: int|
            0 <= i < filtered_bins(noisy@.len(), old(enh)@.len()) ==> post_filter_is(
                noisy@[i],
                old(enh)@[i],
                beta,
                #[trigger] final(enh)@[i],
            ),
        forall|i: int|
            filtered_bins(noisy@.len(), old(enh)@.len()) <= i < old(enh)@.len()
                ==> #[trigger] final(enh)@[i] == old(enh)@[i],
        forall|i: int|
            0 <= i && 4 * (i / 4) + 4 <= noisy@.len() && 4 * (i / 4) + 4 <= old(enh)@.len()
                ==> post_filter_is(noisy@[i], old(enh)@[i], beta, #[trigger] final(enh)@[i]),
        forall|i: int|
            0 <= i < old(enh)@.len() && (4 * (i / 4) + 4 > noisy@.len() || 4 * (i / 4) + 4 > old(
                enh,
            )@.len()) ==> #[trigger] final(enh)@[i] == old(enh)@[i],
{
    let groups: usize = if noisy.len() / 4 < enh.len() / 4 {
        noisy.len() / 4
    } else {
        enh.len() / 4
    };
    let n: usize = 4 * groups;
    let mut i: usize = 0;
    while i < n
        invariant
            i <= n,
            n == filtered_bins(noisy@.len(), old(enh)@.len()),
            enh@.len() == old(enh)@.len(),
            forall|j: int|
                0 <= j < i ==> post_filter_is(
                    noisy@[j],
                    old(enh)@[j],
                    beta,
                    #[trigger] enh@[j],
                ),
            forall|j: int| i <= j < enh@.len() ==> #[trigger] enh@[j] == old(enh)@[j],
        decreases n - i,
    {
        let e: Complex<S> = enh[i];
        let base: S = noisy[i].norm().plus(S::decimal(1, 12));
        let g: S = e.norm().over(base).lesser(S::one()).greater(S::decimal(1, 12));
        assert(gain_is(noisy@[i as int], e, g));
        let gs: S = g.times(g.times(S::pi()).over(S::decimal(2, 0)).sine());
        assert(sine_gain_is(g, gs));
        let top: S = beta.plus(S::one()).times(g);
        let bottom: S = S::one().plus(beta.times(g.over(gs).squared()));
        let boost: S = top.over(bottom).over(g);
        assert(boost_is(beta, g, gs, boost));
        enh[i] = e.scaled(boost);
        assert(post_filter_is(noisy@[i as int], e, beta, enh@[i as int]));
        i += 1;
    }
}

} // verus!
