//! What the post filter does to a spectrum.
use vstd::prelude::*;

use crate::complex::Complex;
use crate::filter;
use crate::laws::numbers;
use crate::laws::numbers::Numbers;
use crate::sample;
use crate::sample::Sample;

verus! {

/// The gain below which the post filter takes none to lie: `10^-12`.
spec fn least_gain() -> real {
    1real / 1000000000000real
}

/// `a` is the magnitude of the bin `z`.
spec fn is_magnitude<S: Sample>(n: Numbers<S>, z: Complex<S>, a: real) -> bool {
    &&& a >= 0real
    &&& a * a == (n.value)(z.re) * (n.value)(z.re) + (n.value)(z.im) * (n.value)(z.im)
}

proof fn lemma_least_gain<S: Sample>(n: Numbers<S>, eps: S)
    requires
        n.calculate(),
        sample::is_decimal(1, 12, eps),
    ensures
        (n.value)(eps) == least_gain(),
        (n.value)(eps) > 0real,
{
    reveal_with_fuel(numbers::ten_to, 13);
    let v = (n.value)(eps);
    assert(numbers::ten_to(12) == 1000000000000real);
    assert(v == 1real / 1000000000000real) by (nonlinear_arith)
        requires
            v * 1000000000000real == 1real,
    ;
}

proof fn lemma_filtered<S: Sample>(
    n: Numbers<S>,
    noisy: Complex<S>,
    enh: Complex<S>,
    beta: S,
    r: Complex<S>,
) -> (p: (real, real, real, real))
    requires
        n.calculate(),
        n.compare(),
        n.take_roots(),
        n.compute_functions(),
        forall|g: real| 0real < g <= 1real ==> #[trigger] (n.sin)(g * n.pi / 2real) > 0real,
        filter::post_filter_is(noisy, enh, beta, r),
    ensures
        ({
            let (before, after, g, k) = p;
            &&& is_magnitude(n, noisy, before)
            &&& is_magnitude(n, enh, after)
            &&& g == numbers::max(
                least_gain(),
                numbers::min(1real, after / (before + least_gain())),
            )
            &&& ({
                let s = (n.sin)(g * n.pi / 2real);
                s * s + (n.value)(beta) != 0real ==> k * (s * s + (n.value)(beta)) == ((n.value)(
                    beta,
                ) + 1real) * (s * s)
            })
            &&& 0real < g <= 1real
            &&& (n.value)(r.re) == k * (n.value)(enh.re)
            &&& (n.value)(r.im) == k * (n.value)(enh.im)
        }),
{
    let (g, gs, boost) = choose|g: S, gs: S, boost: S|
        {
            &&& #[trigger] filter::gain_is(noisy, enh, g)
            &&& #[trigger] filter::sine_gain_is(g, gs)
            &&& #[trigger] filter::boost_is(beta, g, gs, boost)
            &&& crate::complex::complex_scales(enh, boost, r)
        };
    let (after, before, eps, base, ratio, one, capped, eps2) = choose|
        after: S,
        before: S,
        eps: S,
        base: S,
        ratio: S,
        one: S,
        capped: S,
        eps2: S,
    |
        {
            &&& #[trigger] crate::complex::norm_is(enh, after)
            &&& #[trigger] crate::complex::norm_is(noisy, before)
            &&& sample::is_decimal(1, 12, eps)
            &&& #[trigger] sample::adds(before, eps, base)
            &&& #[trigger] sample::divides(after, base, ratio)
            &&& #[trigger] sample::is_one(one)
            &&& #[trigger] call_ensures(S::lesser, (ratio, one), capped)
            &&& #[trigger] sample::is_decimal(1, 12, eps2)
            &&& call_ensures(S::greater, (capped, eps2), g)
        };
    lemma_least_gain(n, eps);
    lemma_least_gain(n, eps2);
    let va = (n.value)(after);
    let vb = (n.value)(base);
    let vq = (n.value)(ratio);
    assert(vb > 0real);
    assert(vq == va / vb) by (nonlinear_arith)
        requires
            vq * vb == va,
            vb > 0real,
    ;
    let vg = (n.value)(g);
    assert(0real < vg <= 1real);
    let (pi, turn, two, angle, sine) = choose|pi: S, turn: S, two: S, angle: S, sine: S|
        {
            &&& #[trigger] sample::is_pi(pi)
            &&& #[trigger] sample::multiplies(g, pi, turn)
            &&& #[trigger] sample::is_decimal(2, 0, two)
            &&& #[trigger] sample::divides(turn, two, angle)
            &&& #[trigger] call_ensures(S::sine, (angle,), sine)
            &&& sample::multiplies(g, sine, gs)
        };
    reveal_with_fuel(numbers::ten_to, 2);
    let v2 = (n.value)(two);
    assert(v2 == 2real) by (nonlinear_arith)
        requires
            v2 * 1real == 2real,
    ;
    let vt = (n.value)(angle);
    let vturn = (n.value)(turn);
    assert(vt == vturn / 2real) by (nonlinear_arith)
        requires
            vt * 2real == vturn,
    ;
    let s = (n.value)(sine);
    assert(s == (n.sin)(vg * n.pi / 2real));
    assert(s > 0real);
    let (one3, raised, top, one4, ratio2, sq, part, bottom, whole) = choose|
        one: S,
        raised: S,
        top: S,
        one2: S,
        ratio: S,
        square: S,
        part: S,
        bottom: S,
        whole: S,
    |
        {
            &&& #[trigger] sample::is_one(one)
            &&& #[trigger] sample::adds(beta, one, raised)
            &&& #[trigger] sample::multiplies(raised, g, top)
            &&& #[trigger] sample::is_one(one2)
            &&& #[trigger] sample::divides(g, gs, ratio)
            &&& #[trigger] call_ensures(S::squared, (ratio,), square)
            &&& #[trigger] sample::multiplies(beta, square, part)
            &&& #[trigger] sample::adds(one2, part, bottom)
            &&& #[trigger] sample::divides(top, bottom, whole)
            &&& sample::divides(whole, g, boost)
        };
    let vgs = (n.value)(gs);
    assert(vgs > 0real) by (nonlinear_arith)
        requires
            vgs == vg * s,
            vg > 0real,
            s > 0real,
    ;
    let q = (n.value)(ratio2);
    assert(q * s == 1real) by (nonlinear_arith)
        requires
            q * vgs == vg,
            vgs == vg * s,
            vg > 0real,
    ;
    let be = (n.value)(beta);
    let vbot = (n.value)(bottom);
    assert((n.value)(sq) == q * q);
    assert(vbot == 1real + be * (q * q));
    let k = (n.value)(boost);
    let w = (n.value)(whole);
    assert(w == k * vg);
    assert((q * q) * (s * s) == 1real) by (nonlinear_arith)
        requires
            q * s == 1real,
    ;
    let q2 = q * q;
    let s2 = s * s;
    assert(vbot * s2 == s2 + be) by (nonlinear_arith)
        requires
            vbot == 1real + be * q2,
            q2 * s2 == 1real,
    ;
    if s2 + be != 0real {
        assert(vbot != 0real) by (nonlinear_arith)
            requires
                vbot * s2 == s2 + be,
                s2 + be != 0real,
        ;
        assert(k * vbot == be + 1real) by (nonlinear_arith)
            requires
                w == k * vg,
                w * vbot == (be + 1real) * vg,
                vg > 0real,
        ;
        assert(k * (s2 + be) == (be + 1real) * s2) by (nonlinear_arith)
            requires
                k * vbot == be + 1real,
                vbot * s2 == s2 + be,
        ;
    }
    let re = (n.value)(enh.re);
    let im = (n.value)(enh.im);
    assert(re * k == k * re && im * k == k * im) by (nonlinear_arith);
    ((n.value)(before), va, vg, k)
}

/// A bin is filtered if and only if the whole group of four that it lies in is within both spectra.
/// A filtered bin is multiplied by `(beta + 1) / (1 + beta / sin(pi g / 2)^2)`, where `g` is the
/// gain that the bin has behind it: the quotient of its magnitudes after and before, between
/// `10^-12` and one. The other bins are left alone.
pub proof fn whole_groups_of_four_are_filtered<S: Sample>(
    n: Numbers<S>,
    noisy: &[Complex<S>],
    enh: &mut [Complex<S>],
    beta: S,
    i: int,
    before: real,
    after: real,
)
    requires
        n.calculate(),
        n.compare(),
        n.take_roots(),
        n.compute_functions(),
        forall|g: real| 0real < g <= 1real ==> #[trigger] (n.sin)(g * n.pi / 2real) > 0real,
        call_ensures(filter::post_filter::<S>, (noisy, enh, beta), ()),
        0 <= i < old(enh)@.len(),
        after >= 0real,
        after * after == (n.value)(old(enh)@[i].re) * (n.value)(old(enh)@[i].re) + (n.value)(
            old(enh)@[i].im,
        ) * (n.value)(old(enh)@[i].im),
        before >= 0real,
        i < noisy@.len() ==> before * before == (n.value)(noisy@[i].re) * (n.value)(noisy@[i].re)
            + (n.value)(noisy@[i].im) * (n.value)(noisy@[i].im),
    ensures
        final(enh)@.len() == old(enh)@.len(),
        4 * (i / 4) + 4 <= noisy@.len() && 4 * (i / 4) + 4 <= old(enh)@.len() ==> ({
            let ratio = after / (before + 1real / 1000000000000real);
            let g = if ratio > 1real {
                1real
            } else if ratio < 1real / 1000000000000real {
                1real / 1000000000000real
            } else {
                ratio
            };
            let s = (n.sin)(g * n.pi / 2real);
            let b = (n.value)(beta);
            s * s + b != 0real ==> {
                &&& (n.value)(final(enh)@[i].re) * (s * s + b) == (n.value)(old(enh)@[i].re) * ((b
                    + 1real) * (s * s))
                &&& (n.value)(final(enh)@[i].im) * (s * s + b) == (n.value)(old(enh)@[i].im) * ((b
                    + 1real) * (s * s))
            }
        }),
        4 * (i / 4) + 4 > noisy@.len() || 4 * (i / 4) + 4 > old(enh)@.len() ==> final(enh)@[i]
            == old(enh)@[i],
{
    if 4 * (i / 4) + 4 <= noisy@.len() && 4 * (i / 4) + 4 <= old(enh)@.len() {
        let (before2, after2, g, k) = lemma_filtered(
            n,
            noisy@[i],
            old(enh)@[i],
            beta,
            final(enh)@[i],
        );
        assert(before == before2) by (nonlinear_arith)
            requires
                before >= 0real,
                before2 >= 0real,
                before * before == before2 * before2,
        ;
        assert(after == after2) by (nonlinear_arith)
            requires
                after >= 0real,
                after2 >= 0real,
                after * after == after2 * after2,
        ;
        let s = (n.sin)(g * n.pi / 2real);
        let b = (n.value)(beta);
        let t = s * s;
        let (re, im) = ((n.value)(old(enh)@[i].re), (n.value)(old(enh)@[i].im));
        if t + b != 0real {
            assert((k * re) * (t + b) == re * ((b + 1real) * t) && (k * im) * (t + b) == im * ((b
                + 1real) * t)) by (nonlinear_arith)
                requires
                    k * (t + b) == (b + 1real) * t,
            ;
        }
    }
}

/// Of two spectra of the same length at most the last three bins are left alone, and only where
/// they make up no group of four.
pub proof fn at_most_three_bins_are_left_alone<S: Sample>(
    noisy: &[Complex<S>],
    enh: &mut [Complex<S>],
    beta: S,
    i: int,
)
    requires
        noisy@.len() == old(enh)@.len(),
        call_ensures(filter::post_filter::<S>, (noisy, enh, beta), ()),
        0 <= i < old(enh)@.len(),
    ensures
        i < old(enh)@.len() - 3 ==> filter::post_filter_is(
            noisy@[i],
            old(enh)@[i],
            beta,
            final(enh)@[i],
        ),
        i >= 4 * (old(enh)@.len() / 4) ==> final(enh)@[i] == old(enh)@[i],
{
}

/// No bin grows, none turns round, and where `beta` is zero none changes.
pub proof fn suppression_is_never_undone<S: Sample>(
    n: Numbers<S>,
    noisy: &[Complex<S>],
    enh: &mut [Complex<S>],
    beta: S,
    i: int,
)
    requires
        n.calculate(),
        n.compare(),
        n.take_roots(),
        n.compute_functions(),
        (n.value)(beta) >= 0real,
        forall|g: real|
            0real < g <= 1real ==> 0real < #[trigger] (n.sin)(g * n.pi / 2real) <= 1real,
        call_ensures(filter::post_filter::<S>, (noisy, enh, beta), ()),
        0 <= i < old(enh)@.len(),
    ensures
        (n.value)(old(enh)@[i].re) >= 0real ==> 0real <= (n.value)(final(enh)@[i].re) <= (n.value)(
            old(enh)@[i].re,
        ),
        (n.value)(old(enh)@[i].re) <= 0real ==> (n.value)(old(enh)@[i].re) <= (n.value)(
            final(enh)@[i].re,
        ) <= 0real,
        (n.value)(beta) == 0real ==> (n.value)(final(enh)@[i].re) == (n.value)(old(enh)@[i].re),
        (n.value)(beta) == 0real ==> (n.value)(final(enh)@[i].im) == (n.value)(old(enh)@[i].im),
        // The two parts keep their ratio.
        (n.value)(final(enh)@[i].re) * (n.value)(old(enh)@[i].im) == (n.value)(final(enh)@[i].im)
            * (n.value)(old(enh)@[i].re),
{
    let (re, im) = ((n.value)(old(enh)@[i].re), (n.value)(old(enh)@[i].im));
    if 4 * (i / 4) + 4 <= noisy@.len() && 4 * (i / 4) + 4 <= old(enh)@.len() {
        let (before, after, g, k) = lemma_filtered(
            n,
            noisy@[i],
            old(enh)@[i],
            beta,
            final(enh)@[i],
        );
        assert(0real < g <= 1real);
        let s = (n.sin)(g * n.pi / 2real);
        let b = (n.value)(beta);
        let t = s * s;
        assert(0real < t <= 1real) by (nonlinear_arith)
            requires
                t == s * s,
                0real < s <= 1real,
        ;
        assert(0real < k <= 1real) by (nonlinear_arith)
            requires
                k * (t + b) == (b + 1real) * t,
                0real < t <= 1real,
                b >= 0real,
        ;
        if b == 0real {
            assert(k == 1real) by (nonlinear_arith)
                requires
                    k * (t + 0real) == (0real + 1real) * t,
                    0real < t,
            ;
            assert(k * re == re && k * im == im) by (nonlinear_arith)
                requires
                    k == 1real,
            ;
        }
        assert((k * re) * im == (k * im) * re) by (nonlinear_arith);
        if re >= 0real {
            assert(0real <= k * re <= re) by (nonlinear_arith)
                requires
                    re >= 0real,
                    0real < k <= 1real,
            ;
        }
        if re <= 0real {
            assert(re <= k * re <= 0real) by (nonlinear_arith)
                requires
                    re <= 0real,
                    0real < k <= 1real,
            ;
        }
    } else {
        assert(re * im == im * re) by (nonlinear_arith);
    }
}

} // verus!
