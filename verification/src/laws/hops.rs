//! What becomes of a signal that passes through a stream hop by hop.
use vstd::prelude::*;

use crate::complex::Complex;
use crate::fourier;
use crate::fourier::Fourier;
use crate::laws::numbers;
use crate::laws::numbers::Numbers;
use crate::sample::Sample;
use crate::state;
use crate::state::DFState;

verus! {

/// Sample `i` of the signal that the remembered samples `mem` and the hop `input` make up.
pub open spec fn heard<S>(mem: Seq<S>, input: Seq<S>, i: int) -> S {
    if i < mem.len() {
        mem[i]
    } else {
        input[i - mem.len()]
    }
}

/// Once a hop has come in, the latest samples are remembered, as many as before.
pub proof fn latest_samples_are_remembered<S: Sample>(mem: &[S], input: &[S], r: Vec<S>, i: int)
    requires
        input@.len() <= mem@.len(),
        call_ensures(state::shift::<S>, (mem, input), r),
        0 <= i < mem@.len(),
    ensures
        r@.len() == mem@.len(),
        i < mem@.len() - input@.len() ==> r@[i] == mem@[i + input@.len()],
        i >= mem@.len() - input@.len() ==> r@[i] == input@[i - (mem@.len() - input@.len())],
{
}

/// A frame holds the latest samples, the remembered ones before the new hop, each times the
/// window's value there; the newest of them are remembered.
pub proof fn frames_end_with_the_new_hop<S: Sample>(
    n: Numbers<S>,
    s: &mut DFState<S>,
    input: &[S],
    frame: Vec<S>,
    i: int,
)
    requires
        n.calculate(),
        old(s).sizes_fit(),
        input@.len() == old(s).frame_size,
        call_ensures(DFState::<S>::windowed_frame, (s, input), frame),
        0 <= i < old(s).window_size,
    ensures
        frame@.len() == old(s).window_size,
        i < old(s).window_size - old(s).frame_size ==> (n.value)(frame@[i]) == (n.value)(
            old(s).analysis_mem@[i],
        ) * (n.value)(old(s).window@[i]),
        i >= old(s).window_size - old(s).frame_size ==> (n.value)(frame@[i]) == (n.value)(
            input@[i - (old(s).window_size - old(s).frame_size)],
        ) * (n.value)(old(s).window@[i]),
        final(s).analysis_mem@.len() == old(s).analysis_mem@.len(),
        i >= old(s).frame_size ==> final(s).analysis_mem@[i - old(s).frame_size] == heard(
            old(s).analysis_mem@,
            input@,
            i,
        ),
{
}

/// What goes out of the synthesis and what is kept for later add up to what was kept before and
/// the new frame through the window: nothing is lost and nothing is counted twice.
pub proof fn overlapping_frames_are_added_up<S: Sample>(
    n: Numbers<S>,
    s: &mut DFState<S>,
    x: Vec<S>,
    output: &mut [S],
    i: int,
)
    requires
        n.calculate(),
        old(s).sizes_fit(),
        x@.len() == old(s).window_size,
        old(output)@.len() == old(s).frame_size,
        call_ensures(DFState::<S>::overlap_add, (s, x, output), ()),
        0 <= i < old(s).window_size,
    ensures
        final(output)@.len() == old(s).frame_size,
        final(s).synthesis_mem@.len() == old(s).synthesis_mem@.len(),
        (n.value)(heard(final(output)@, final(s).synthesis_mem@, i)) == (n.value)(x@[i]) * (
        n.value)(old(s).window@[i]) + (if i < old(s).synthesis_mem@.len() {
            (n.value)(old(s).synthesis_mem@[i])
        } else {
            0real
        }),
{
    lemma_added_up(
        n,
        x@,
        old(s).window@,
        old(s).synthesis_mem@,
        final(output)@,
        final(s).synthesis_mem@,
        i,
    );
}

proof fn lemma_added_up<S: Sample>(
    n: Numbers<S>,
    x: Seq<S>,
    window: Seq<S>,
    mem: Seq<S>,
    out: Seq<S>,
    mem2: Seq<S>,
    i: int,
)
    requires
        n.calculate(),
        state::synthesis_is(x, window, mem, out, mem2),
        out.len() <= mem.len(),
        out.len() + mem.len() == window.len(),
        0 <= i < window.len(),
    ensures
        (n.value)(heard(out, mem2, i)) == (n.value)(x[i]) * (n.value)(window[i]) + (if i
            < mem.len() {
            (n.value)(mem[i])
        } else {
            0real
        }),
{
    let xw = choose|xw: Seq<S>|
        #[trigger] state::windowed_is(x, window, xw) && state::overlap_add_is(xw, mem, out, mem2);
    let hop = out.len() as int;
    if i < hop {
        assert(heard(out, mem2, i) == out[i]);
    } else {
        assert(heard(out, mem2, i) == mem2[i - hop]);
        if i < mem.len() {
            assert(mem[hop + (i - hop)] == mem[i]);
        } else {
            assert(mem2[i - hop] == xw[hop + (i - hop)]);
        }
    }
    assert(crate::sample::multiplies(x[i], window[i], xw[i]));
}

/// A spectrum of the stream is that of the windowed frame, both parts of every bin times the
/// stream's factor.
pub proof fn analysis_scales_the_spectrum<S: Sample, F: Fourier<S>>(
    n: Numbers<S>,
    s: &mut DFState<S>,
    input: &[S],
    output: &mut [Complex<S>],
    fourier: &F,
)
    requires
        n.calculate(),
        old(s).sizes_fit(),
        input@.len() == old(s).frame_size,
        old(output)@.len() == old(s).freq_size,
        fourier::has_size(fourier, old(s).window_size as int),
        call_ensures(DFState::<S>::analysis::<F>, (s, input, output, fourier), ()),
    ensures
        exists|frame: &[S], spectrum: Vec<Complex<S>>|
            {
                &&& #[trigger] call_ensures(F::forward, (fourier, frame), spectrum)
                &&& frame@.len() == old(s).window_size
                &&& forall|i: int|
                    0 <= i < frame@.len() ==> (n.value)(#[trigger] frame@[i]) == (n.value)(
                        heard(old(s).analysis_mem@, input@, i),
                    ) * (n.value)(old(s).window@[i])
                &&& spectrum@.len() == final(output)@.len()
                &&& forall|f: int| #![trigger final(output)@[f]]
                    0 <= f < spectrum@.len() ==> {
                        &&& (n.value)(final(output)@[f].re) == (n.value)(spectrum@[f].re) * (
                        n.value)(old(s).wnorm)
                        &&& (n.value)(final(output)@[f].im) == (n.value)(spectrum@[f].im) * (
                        n.value)(old(s).wnorm)
                    }
            },
        final(output)@.len() == old(s).window_size as int / 2 + 1,
        final(s).analysis_mem@.len() == old(s).analysis_mem@.len(),
        forall|j: int| #![trigger final(s).analysis_mem@[j]]
            0 <= j < old(s).analysis_mem@.len() ==> final(s).analysis_mem@[j] == heard(
                old(s).analysis_mem@,
                input@,
                j + old(s).frame_size,
            ),
        final(s).synthesis_mem@ == old(s).synthesis_mem@,
        final(s).mean_norm_state@ == old(s).mean_norm_state@,
        final(s).unit_norm_state@ == old(s).unit_norm_state@,
{
    let (frame, spectrum) = choose|frame: Seq<S>, spectrum: Seq<Complex<S>>|
        {
            &&& state::windowed_is(old(s).analysis_mem@ + input@, old(s).window@, frame)
            &&& #[trigger] fourier::forward_is(fourier, frame, spectrum)
            &&& state::spectrum_scales(spectrum, old(s).wnorm, final(output)@)
        };
    let (v, r) = choose|v: &[S], r: Vec<Complex<S>>|
        v@ == frame && r@ == spectrum && #[trigger] call_ensures(F::forward, (fourier, v), r);
    assert(call_ensures(F::forward, (fourier, v), r));
    assert forall|i: int| 0 <= i < v@.len() implies (n.value)(#[trigger] v@[i]) == (n.value)(
        heard(old(s).analysis_mem@, input@, i),
    ) * (n.value)(old(s).window@[i]) by {
        assert(frame[i] == v@[i]);
        assert((old(s).analysis_mem@ + input@)[i] == heard(old(s).analysis_mem@, input@, i));
    }
    assert forall|f: int| #![trigger final(output)@[f]] 0 <= f < r@.len() implies (n.value)(
        final(output)@[f].re,
    ) == (n.value)(r@[f].re) * (n.value)(old(s).wnorm) && (n.value)(final(output)@[f].im) == (
    n.value)(r@[f].im) * (n.value)(old(s).wnorm) by {
        assert(crate::complex::complex_scales(spectrum[f], old(s).wnorm, final(output)@[f]));
    }
}

/// The synthesis turns the bins back into a frame, and adds it up through the window.
pub proof fn synthesis_adds_up_the_frame<S: Sample, F: Fourier<S>>(
    n: Numbers<S>,
    s: &mut DFState<S>,
    input: &[Complex<S>],
    output: &mut [S],
    fourier: &F,
)
    requires
        n.calculate(),
        old(s).sizes_fit(),
        input@.len() == old(s).freq_size,
        old(output)@.len() == old(s).frame_size,
        fourier::has_size(fourier, old(s).window_size as int),
        call_ensures(DFState::<S>::synthesis::<F>, (s, input, output, fourier), ()),
    ensures
        exists|bins: &[Complex<S>], x: Vec<S>|
            {
                &&& #[trigger] call_ensures(F::inverse, (fourier, bins), x)
                &&& bins@ == input@
                &&& x@.len() == old(s).window_size
                &&& forall|i: int| #![trigger x@[i]]
                    0 <= i < x@.len() ==> (n.value)(
                        heard(final(output)@, final(s).synthesis_mem@, i),
                    ) == (n.value)(x@[i]) * (n.value)(old(s).window@[i]) + (if i < old(
                        s,
                    ).synthesis_mem@.len() {
                        (n.value)(old(s).synthesis_mem@[i])
                    } else {
                        0real
                    })
            },
        final(output)@.len() == old(s).frame_size,
        final(s).synthesis_mem@.len() == old(s).synthesis_mem@.len(),
        final(s).analysis_mem@ == old(s).analysis_mem@,
        final(s).mean_norm_state@ == old(s).mean_norm_state@,
        final(s).unit_norm_state@ == old(s).unit_norm_state@,
{
    let x0 = choose|x: Seq<S>|
        #[trigger] fourier::inverse_is(fourier, input@, x) && state::synthesis_is(
            x,
            old(s).window@,
            old(s).synthesis_mem@,
            final(output)@,
            final(s).synthesis_mem@,
        );
    let (bins, x) = choose|v: &[Complex<S>], r: Vec<S>|
        v@ == input@ && r@ == x0 && #[trigger] call_ensures(F::inverse, (fourier, v), r);
    assert(call_ensures(F::inverse, (fourier, bins), x));
    assert forall|i: int| #![trigger x@[i]] 0 <= i < x@.len() implies (n.value)(
        heard(final(output)@, final(s).synthesis_mem@, i),
    ) == (n.value)(x@[i]) * (n.value)(old(s).window@[i]) + (if i < old(s).synthesis_mem@.len() {
        (n.value)(old(s).synthesis_mem@[i])
    } else {
        0real
    }) by {
        lemma_added_up(
            n,
            x0,
            old(s).window@,
            old(s).synthesis_mem@,
            final(output)@,
            final(s).synthesis_mem@,
            i,
        );
    }
}

// Through and back.

/// The transform restores frames of `size` samples: where the spectrum of a frame is multiplied by
/// `k` and turned back, every sample comes back times `k size`.
pub open spec fn restores<S: Sample, F: Fourier<S>>(
    n: Numbers<S>,
    fourier: &F,
    size: int,
) -> bool {
    forall|v: &[S], there: Vec<Complex<S>>, back: &[Complex<S>], r: Vec<S>, k: real|
        v@.len() == size && #[trigger] call_ensures(F::forward, (fourier, v), there)
            && #[trigger] call_ensures(F::inverse, (fourier, back), r) && #[trigger] is_multiple(
            n,
            there@,
            k,
            back@,
        ) ==> r@.len() == size && forall|i: int|
            0 <= i < size ==> (n.value)(#[trigger] r@[i]) == (k * size as real) * (n.value)(v@[i])
}

/// The bins of `b` are those of `a` times `k`.
pub open spec fn is_multiple<S: Sample>(
    n: Numbers<S>,
    a: Seq<Complex<S>>,
    k: real,
    b: Seq<Complex<S>>,
) -> bool {
    &&& a.len() == b.len()
    &&& forall|f: int| #![trigger b[f]]
        0 <= f < a.len() ==> (n.value)(b[f].re) == (n.value)(a[f].re) * k && (n.value)(b[f].im)
            == (n.value)(a[f].im) * k
}

/// The window is complete: the squares of places half a window apart add up to one.
pub open spec fn is_complete<S: Sample>(n: Numbers<S>, window: Seq<S>) -> bool {
    forall|i: int| #![trigger window[i]]
        0 <= i < window.len() as int / 2 ==> numbers::square((n.value)(window[i]))
            + numbers::square((n.value)(window[i + window.len() as int / 2])) == 1real
}

/// One hop through and back: what goes out and what is kept add up to what was kept before and
/// the heard signal times the square of the window and the factor `wnorm window_size`.
proof fn lemma_hop_through<S: Sample, F: Fourier<S>>(
    n: Numbers<S>,
    s: DFState<S>,
    next: DFState<S>,
    input: Seq<S>,
    output: Seq<S>,
    fourier: &F,
    i: int,
)
    requires
        n.calculate(),
        s.sizes_fit(),
        input.len() == s.frame_size,
        fourier::has_size(fourier, s.window_size as int),
        restores(n, fourier, s.window_size as int),
        s.processes(fourier, input, output, &next),
        0 <= i < s.window_size,
    ensures
        output.len() == s.frame_size,
        next.synthesis_mem@.len() == s.synthesis_mem@.len(),
        next.analysis_mem@ == state::shifted(s.analysis_mem@, input),
        (n.value)(heard(output, next.synthesis_mem@, i)) == ((n.value)(s.wnorm)
            * s.window_size as real) * ((n.value)(heard(s.analysis_mem@, input, i))
            * numbers::square((n.value)(s.window@[i]))) + (if i < s.synthesis_mem@.len() {
            (n.value)(s.synthesis_mem@[i])
        } else {
            0real
        }),
{
    let (between, spectrum) = choose|between: DFState<S>, spectrum: Seq<Complex<S>>|
        {
            &&& #[trigger] s.analyses(fourier, input, spectrum, &between)
            &&& between.synthesizes(fourier, spectrum, output, &next)
        };
    let (frame, there) = choose|frame: Seq<S>, there: Seq<Complex<S>>|
        {
            &&& state::windowed_is(s.analysis_mem@ + input, s.window@, frame)
            &&& #[trigger] fourier::forward_is(fourier, frame, there)
            &&& state::spectrum_scales(there, s.wnorm, spectrum)
        };
    let (v, r) = choose|v: &[S], r: Vec<Complex<S>>|
        v@ == frame && r@ == there && #[trigger] call_ensures(F::forward, (fourier, v), r);
    assert(call_ensures(F::forward, (fourier, v), r));
    let x = choose|x: Seq<S>|
        #[trigger] fourier::inverse_is(fourier, spectrum, x) && state::synthesis_is(
            x,
            between.window@,
            between.synthesis_mem@,
            output,
            next.synthesis_mem@,
        );
    let (back, y) = choose|v: &[Complex<S>], r: Vec<S>|
        v@ == spectrum && r@ == x && #[trigger] call_ensures(F::inverse, (fourier, v), r);
    assert(call_ensures(F::inverse, (fourier, back), y));
    let k = (n.value)(s.wnorm);
    assert forall|f: int| #![trigger back@[f]] 0 <= f < r@.len() implies (n.value)(back@[f].re) == (
    n.value)(r@[f].re) * k && (n.value)(back@[f].im) == (n.value)(r@[f].im) * k by {
        assert(crate::complex::complex_scales(there[f], s.wnorm, spectrum[f]));
    }
    assert(is_multiple(n, r@, k, back@));
    assert((n.value)(y@[i]) == (k * s.window_size as real) * (n.value)(v@[i]));
    assert((s.analysis_mem@ + input)[i] == heard(s.analysis_mem@, input, i));
    assert(crate::sample::multiplies((s.analysis_mem@ + input)[i], s.window@[i], frame[i]));
    lemma_added_up(
        n,
        x,
        s.window@,
        s.synthesis_mem@,
        output,
        next.synthesis_mem@,
        i,
    );
    let a = (n.value)(heard(s.analysis_mem@, input, i));
    let w = (n.value)(s.window@[i]);
    let c = k * s.window_size as real;
    assert((c * (a * w)) * w == c * (a * (w * w))) by (nonlinear_arith);
}

/// Whatever the overlap, a hop that goes through and back adds to what goes out, and to what is
/// kept, the heard signal times the square of the window, the factor of the analysis and the window
/// size.
pub proof fn hop_goes_through_and_back<S: Sample, F: Fourier<S>>(
    n: Numbers<S>,
    s: &mut DFState<S>,
    input: &[S],
    output: &mut [S],
    fourier: &F,
    i: int,
)
    requires
        n.calculate(),
        old(s).sizes_fit(),
        fourier::has_size(fourier, old(s).window_size as int),
        restores(n, fourier, old(s).window_size as int),
        input@.len() == old(s).frame_size,
        old(output)@.len() == old(s).frame_size,
        call_ensures(DFState::<S>::process_frame::<F>, (s, input, output, fourier), ()),
        0 <= i < old(s).window_size,
    ensures
        final(output)@.len() == old(s).frame_size,
        final(s).synthesis_mem@.len() == old(s).synthesis_mem@.len(),
        (n.value)(heard(final(output)@, final(s).synthesis_mem@, i)) == ((n.value)(old(s).wnorm)
            * old(s).window_size as real) * ((n.value)(heard(old(s).analysis_mem@, input@, i)) * (
        (n.value)(old(s).window@[i]) * (n.value)(old(s).window@[i]))) + (if i < old(
            s,
        ).synthesis_mem@.len() {
            (n.value)(old(s).synthesis_mem@[i])
        } else {
            0real
        }),
        i >= old(s).frame_size ==> final(s).analysis_mem@[i - old(s).frame_size] == heard(
            old(s).analysis_mem@,
            input@,
            i,
        ),
        final(s).mean_norm_state@ == old(s).mean_norm_state@,
        final(s).unit_norm_state@ == old(s).unit_norm_state@,
        final(s).window@ == old(s).window@,
        final(s).wnorm == old(s).wnorm,
        final(s).erb@ == old(s).erb@,
{
    lemma_hop_through(n, *old(s), *final(s), input@, final(output)@, fourier, i);
}

/// At half overlap, a stream gives its signal back one hop later: whatever came before, the second
/// of two hops brings out the first.
pub proof fn signal_comes_back_a_hop_later<S: Sample, F: Fourier<S>>(
    n: Numbers<S>,
    s: &mut DFState<S>,
    t: &mut DFState<S>,
    first: &[S],
    second: &[S],
    out1: &mut [S],
    out2: &mut [S],
    fourier: &F,
    i: int,
)
    requires
        n.calculate(),
        old(s).sizes_fit(),
        old(s).window_size == 2 * old(s).frame_size,
        is_complete(n, old(s).window@),
        (n.value)(old(s).wnorm) * (old(s).window_size as real * old(s).window_size as real) == 2real
            * (old(s).frame_size as real),
        fourier::has_size(fourier, old(s).window_size as int),
        restores(n, fourier, old(s).window_size as int),
        first@.len() == old(s).frame_size,
        second@.len() == old(s).frame_size,
        old(out1)@.len() == old(s).frame_size,
        old(out2)@.len() == old(s).frame_size,
        call_ensures(DFState::<S>::process_frame::<F>, (s, first, out1, fourier), ()),
        *old(t) == *final(s),
        call_ensures(DFState::<S>::process_frame::<F>, (t, second, out2, fourier), ()),
        0 <= i < first@.len(),
    ensures
        final(out2)@.len() == first@.len(),
        (n.value)(final(out2)@[i]) == (n.value)(first@[i]),
{
    let hop = first@.len() as int;
    lemma_hop_through(n, *old(s), *final(s), first@, final(out1)@, fourier, hop + i);
    lemma_hop_through(n, *old(t), *final(t), second@, final(out2)@, fourier, i);
    assert(final(s).same_setup(old(s)));
    let (p, q) = ((n.value)(old(s).window@[i]), (n.value)(old(s).window@[i + hop]));
    assert(p * p + q * q == 1real);
    let a = (n.value)(first@[i]);
    assert(heard(old(s).analysis_mem@, first@, hop + i) == first@[i]);
    assert(heard(final(s).analysis_mem@, second@, i) == first@[i]);
    assert(heard(final(out1)@, final(s).synthesis_mem@, hop + i) == final(s).synthesis_mem@[i]);
    assert(heard(final(out2)@, final(t).synthesis_mem@, i) == final(out2)@[i]);
    let k = (n.value)(old(s).wnorm);
    let size = old(s).window_size as real;
    let c = k * size;
    assert(2real * (old(s).frame_size as real) == size);
    assert(c == 1real) by (nonlinear_arith)
        requires
            c == k * size,
            k * (size * size) == size,
            size > 0real,
    ;
    let o = (n.value)(final(out2)@[i]);
    let m = (n.value)(final(s).synthesis_mem@[i]);
    assert(o == a) by (nonlinear_arith)
        requires
            o == c * (a * (p * p)) + m,
            m == c * (a * (q * q)) + 0real,
            c == 1real,
            p * p + q * q == 1real,
    ;
}

} // verus!
