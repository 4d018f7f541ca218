//! Windows, and what remains of a signal that passes through them twice.
use vstd::prelude::*;

use crate::features;
use crate::laws::numbers;
use crate::laws::numbers::Numbers;
use crate::sample;
use crate::sample::{Sample, Wider};
use crate::state;
use crate::state::DFState;
use crate::stream;

verus! {

/// Cutting down to the narrower samples keeps the number.
pub open spec fn narrows_exactly<S: Sample, W: Wider<S>>(n: Numbers<S>, w: Numbers<W>) -> bool {
    forall|a: W, r: S|
        #[trigger] call_ensures(W::narrowed, (a,), r) ==> (n.value)(r) == (w.value)(a)
}

proof fn lemma_half<S: Sample>(n: Numbers<S>, half: S)
    requires
        n.calculate(),
        sample::is_decimal(5, 1, half),
    ensures
        (n.value)(half) == 1real / 2real,
{
    reveal_with_fuel(numbers::ten_to, 3);
    let v = (n.value)(half);
    assert(numbers::ten_to(1) == 10real * numbers::ten_to(0));
    assert(v == 1real / 2real) by (nonlinear_arith)
        requires
            v * (10real * 1real) == 5real,
    ;
}

/// The angle of place `i` of a window over `2 len` samples: from zero to a half turn.
spec fn place_angle(pi: real, i: int, len: int) -> real {
    (pi / 2real) * (i as real + 1real / 2real) / (len as real)
}

proof fn lemma_vorbis<S: Sample, W: Wider<S>>(
    n: Numbers<S>,
    w: Numbers<W>,
    i: usize,
    len: usize,
    r: S,
)
    requires
        w.calculate(),
        w.compute_functions(),
        narrows_exactly(n, w),
        len > 0,
        features::vorbis_is::<S, W>(i, len, r),
    ensures
        ({
            let a = (w.sin)(place_angle(w.pi, i as int, len as int));
            (n.value)(r) == (w.sin)((w.pi / 2real) * (a * a))
        }),
{
    let (a, turn, once, twice, arch) = choose|a: W, turn: W, once: W, twice: W, arch: W|
        {
            &&& #[trigger] features::half_arch_is(i, len, a)
            &&& #[trigger] features::quarter_turn_is(turn)
            &&& #[trigger] sample::multiplies(turn, a, once)
            &&& #[trigger] sample::multiplies(once, a, twice)
            &&& #[trigger] call_ensures(W::sine, (twice,), arch)
            &&& call_ensures(W::narrowed, (arch,), r)
        };
    lemma_quarter_turn(w, turn);
    let (turn2, count, half, place, arc, size, angle) = choose|
        turn: W,
        count: W,
        half: W,
        place: W,
        arc: W,
        len2: W,
        angle: W,
    |
        {
            &&& #[trigger] features::quarter_turn_is(turn)
            &&& #[trigger] sample::is_count(i, count)
            &&& sample::is_decimal(5, 1, half)
            &&& #[trigger] sample::adds(count, half, place)
            &&& #[trigger] sample::multiplies(turn, place, arc)
            &&& #[trigger] sample::is_count(len, len2)
            &&& #[trigger] sample::divides(arc, len2, angle)
            &&& call_ensures(W::sine, (angle,), a)
        };
    lemma_quarter_turn(w, turn2);
    lemma_half(w, half);
    let va = (w.value)(angle);
    let vl = len as real;
    let varc = (w.value)(arc);
    assert(va == varc / vl) by (nonlinear_arith)
        requires
            va * vl == varc,
            vl > 0real,
    ;
    let q = w.pi / 2real;
    let s = (w.value)(a);
    assert((q * s) * s == q * (s * s)) by (nonlinear_arith);
}

proof fn lemma_quarter_turn<W: Sample>(w: Numbers<W>, turn: W)
    requires
        w.calculate(),
        w.compute_functions(),
        features::quarter_turn_is(turn),
    ensures
        (w.value)(turn) == w.pi / 2real,
{
    let (half, pi) = choose|half: W, pi: W|
        {
            &&& sample::is_decimal(5, 1, half)
            &&& sample::is_pi(pi)
            &&& #[trigger] sample::multiplies(half, pi, turn)
        };
    lemma_half(w, half);
    let p = w.pi;
    assert((1real / 2real) * p == p / 2real) by (nonlinear_arith);
}

/// The window's places are `sin(pi / 2 sin^2(pi / 2 (i + 1/2) / len))`.
pub proof fn window_place_is_a_sine_of_a_squared_sine<S: Sample, W: Wider<S>>(
    n: Numbers<S>,
    w: Numbers<W>,
    i: usize,
    len: usize,
    r: S,
)
    requires
        w.calculate(),
        w.compute_functions(),
        narrows_exactly(n, w),
        len > 0,
        call_ensures(features::vorbis::<S, W>, (i, len), r),
    ensures
        ({
            let a = (w.sin)((w.pi / 2real) * (i as real + 1real / 2real) / (len as real));
            (n.value)(r) == (w.sin)((w.pi / 2real) * (a * a))
        }),
{
    lemma_vorbis(n, w, i, len, r);
}

/// The squares of two places that lie half a window apart add up to one: a signal that passes
/// through the window twice, in frames half a window apart, comes out as it was.
pub proof fn opposite_window_places_complete_each_other<S: Sample, W: Wider<S>>(
    n: Numbers<S>,
    w: Numbers<W>,
    i: usize,
    j: usize,
    len: usize,
    r: S,
    q: S,
)
    requires
        w.calculate(),
        w.compute_functions(),
        w.turn_right(),
        narrows_exactly(n, w),
        len > 0,
        j == i + len,
        call_ensures(features::vorbis::<S, W>, (i, len), r),
        call_ensures(features::vorbis::<S, W>, (j, len), q),
    ensures
        (n.value)(r) * (n.value)(r) + (n.value)(q) * (n.value)(q) == 1real,
{
    lemma_opposite_places(n, w, i, j, len, r, q);
}

pub proof fn lemma_opposite_places<S: Sample, W: Wider<S>>(
    n: Numbers<S>,
    w: Numbers<W>,
    i: usize,
    j: usize,
    len: usize,
    r: S,
    q: S,
)
    requires
        w.calculate(),
        w.compute_functions(),
        w.turn_right(),
        narrows_exactly(n, w),
        len > 0,
        j == i + len,
        features::vorbis_is::<S, W>(i, len, r),
        features::vorbis_is::<S, W>(j, len, q),
    ensures
        (n.value)(r) * (n.value)(r) + (n.value)(q) * (n.value)(q) == 1real,
{
    lemma_vorbis(n, w, i, len, r);
    lemma_vorbis(n, w, j, len, q);
    let x = place_angle(w.pi, i as int, len as int);
    let y = place_angle(w.pi, j as int, len as int);
    let vi = i as real;
    let vl = len as real;
    let p = w.pi;
    assert(j as real == vi + vl);
    assert(y == x + p / 2real) by (nonlinear_arith)
        requires
            x == (p / 2real) * (vi + 1real / 2real) / vl,
            y == (p / 2real) * ((vi + vl) + 1real / 2real) / vl,
            vl > 0real,
    ;
    let a = (w.sin)(x);
    let b = (w.sin)(y);
    assert(b == (w.cos)(x));
    let u = (p / 2real) * (a * a);
    let v = (p / 2real) * (b * b);
    assert((w.sin)(x) * (w.sin)(x) + (w.cos)(x) * (w.cos)(x) == 1real);
    assert(v == p / 2real - u) by (nonlinear_arith)
        requires
            a * a + b * b == 1real,
            u == (p / 2real) * (a * a),
            v == (p / 2real) * (b * b),
    ;
    assert((w.sin)(v) == (w.cos)(u));
    assert((w.sin)(u) * (w.sin)(u) + (w.cos)(u) * (w.cos)(u) == 1real);
}

// The square-root Hann window.

proof fn lemma_sqrt_hann<S: Sample>(n: Numbers<S>, i: usize, len: usize, r: S)
    requires
        n.calculate(),
        n.take_roots(),
        n.compute_functions(),
        len > 0,
        stream::sqrt_hann_is(i, len, r),
        (n.cos)(2real * n.pi * (i as real) / (len as real)) <= 1real,
    ensures
        (n.value)(r) >= 0real,
        2real * ((n.value)(r) * (n.value)(r)) == 1real - (n.cos)(
            2real * n.pi * (i as real) / (len as real),
        ),
{
    let (half, angle, wave, part, h) = choose|half: S, angle: S, wave: S, part: S, h: S|
        {
            &&& sample::is_decimal(5, 1, half)
            &&& #[trigger] stream::angle_is(i, len, angle)
            &&& #[trigger] call_ensures(S::cosine, (angle,), wave)
            &&& #[trigger] sample::multiplies(half, wave, part)
            &&& #[trigger] sample::subtracts(half, part, h)
            &&& sample::roots(h, r)
        };
    lemma_half(n, half);
    let (two, pi, turn, place, arc, size) = choose|
        two: S,
        pi: S,
        turn: S,
        place: S,
        arc: S,
        len2: S,
    |
        {
            &&& #[trigger] sample::is_decimal(2, 0, two)
            &&& #[trigger] sample::is_pi(pi)
            &&& #[trigger] sample::multiplies(two, pi, turn)
            &&& #[trigger] sample::is_count(i, place)
            &&& #[trigger] sample::multiplies(turn, place, arc)
            &&& #[trigger] sample::is_count(len, len2)
            &&& sample::divides(arc, len2, angle)
        };
    reveal_with_fuel(numbers::ten_to, 2);
    let v2 = (n.value)(two);
    assert(v2 == 2real) by (nonlinear_arith)
        requires
            v2 * 1real == 2real,
    ;
    let va = (n.value)(angle);
    let varc = (n.value)(arc);
    let vl = len as real;
    assert(va == varc / vl) by (nonlinear_arith)
        requires
            va * vl == varc,
            vl > 0real,
    ;
    let c = (n.cos)(va);
    let vh = (n.value)(h);
    assert(vh >= 0real && 2real * vh == 1real - c) by (nonlinear_arith)
        requires
            vh == 1real / 2real - (1real / 2real) * c,
            c <= 1real,
    ;
}

/// Twice the square of any place of the window is one less the cosine of its angle, which goes once
/// round over the whole window.
pub proof fn sqrt_hann_is_the_root_of_a_raised_cosine<S: Sample>(
    n: Numbers<S>,
    len: usize,
    v: Vec<S>,
    i: int,
)
    requires
        n.calculate(),
        n.take_roots(),
        n.compute_functions(),
        n.turn_right(),
        call_ensures(stream::sqrt_hann::<S>, (len,), v),
        0 <= i < len,
    ensures
        v@.len() == len,
        (n.value)(v@[i]) >= 0real,
        2real * ((n.value)(v@[i]) * (n.value)(v@[i])) == 1real - (n.cos)(
            2real * n.pi * (i as real) / (len as real),
        ),
{
    assert(stream::sqrt_hann_window(len, v@));
    let x = 2real * n.pi * (i as real) / (len as real);
    assert((n.sin)(x) * (n.sin)(x) + (n.cos)(x) * (n.cos)(x) == 1real);
    let c = (n.cos)(x);
    let s = (n.sin)(x);
    assert(-1real <= c <= 1real) by (nonlinear_arith)
        requires
            s * s + c * c == 1real,
    ;
    assert(stream::sqrt_hann_is(i as usize, len, v@[i]));
    lemma_sqrt_hann(n, i as usize, len, v@[i]);
}

/// Twice the square of a place of the window is one less the cosine of its angle, and the squares
/// of two places half a window apart add up to one.
pub proof fn sqrt_hann_places_complete_each_other<S: Sample>(
    n: Numbers<S>,
    len: usize,
    v: Vec<S>,
    i: int,
)
    requires
        n.calculate(),
        n.take_roots(),
        n.compute_functions(),
        n.turn_right(),
        call_ensures(stream::sqrt_hann::<S>, (len,), v),
        len % 2 == 0,
        0 <= i < len / 2,
    ensures
        v@.len() == len,
        (n.value)(v@[i]) >= 0real,
        2real * ((n.value)(v@[i]) * (n.value)(v@[i])) == 1real - (n.cos)(
            2real * n.pi * (i as real) / (len as real),
        ),
        (n.value)(v@[i]) * (n.value)(v@[i]) + (n.value)(v@[i + len as int / 2]) * (n.value)(
            v@[i + len as int / 2],
        ) == 1real,
{
    assert(stream::sqrt_hann_window(len, v@));
    lemma_sqrt_hann_complete(n, len, v@, i);
}

pub proof fn lemma_sqrt_hann_complete<S: Sample>(n: Numbers<S>, len: usize, v: Seq<S>, i: int)
    requires
        n.calculate(),
        n.take_roots(),
        n.compute_functions(),
        n.turn_right(),
        stream::sqrt_hann_window(len, v),
        len % 2 == 0,
        0 <= i < len / 2,
    ensures
        (n.value)(v[i]) >= 0real,
        2real * ((n.value)(v[i]) * (n.value)(v[i])) == 1real - (n.cos)(
            2real * n.pi * (i as real) / (len as real),
        ),
        (n.value)(v[i]) * (n.value)(v[i]) + (n.value)(v[i + len as int / 2]) * (n.value)(
            v[i + len as int / 2],
        ) == 1real,
{
    let j = i + len as int / 2;
    let x = 2real * n.pi * (i as real) / (len as real);
    let y = 2real * n.pi * (j as real) / (len as real);
    let p = n.pi;
    let vi = i as real;
    let vl = len as real;
    let vj = j as real;
    assert(len == 2 * (len as int / 2));
    assert(vj == vi + (len as int / 2) as real);
    assert(vl == 2real * ((len as int / 2) as real));
    assert(y == x + p) by (nonlinear_arith)
        requires
            x == 2real * p * vi / vl,
            y == 2real * p * vj / vl,
            2real * vj == 2real * vi + vl,
            vl > 0real,
    ;
    assert((n.sin)(x) * (n.sin)(x) + (n.cos)(x) * (n.cos)(x) == 1real);
    assert((n.cos)(y) == -(n.cos)(x));
    let c = (n.cos)(x);
    let s = (n.sin)(x);
    assert(-1real <= c <= 1real) by (nonlinear_arith)
        requires
            s * s + c * c == 1real,
    ;
    assert(stream::sqrt_hann_is(i as usize, len, v[i]));
    assert(stream::sqrt_hann_is(j as usize, len, v[j]));
    lemma_sqrt_hann(n, i as usize, len, v[i]);
    lemma_sqrt_hann(n, j as usize, len, v[j]);
}

/// A quarter turn is half of pi.
pub proof fn four_quarter_turns_are_a_turn<W: Sample>(w: Numbers<W>, r: W)
    requires
        w.calculate(),
        w.compute_functions(),
        call_ensures(features::quarter_turn::<W>, (), r),
    ensures
        4real * (w.value)(r) == 2real * w.pi,
{
    lemma_quarter_turn(w, r);
}

/// A sample that is seen through a window is multiplied by the window's value there; where the
/// window reaches beyond the signal, it shows silence.
pub proof fn window_multiplies_what_is_seen<S: Sample>(
    n: Numbers<S>,
    xs: &[S],
    window: &[S],
    r: Vec<S>,
    i: int,
)
    requires
        n.calculate(),
        call_ensures(state::apply_window::<S>, (xs, window), r),
        0 <= i < window@.len(),
    ensures
        r@.len() == window@.len(),
        i < xs@.len() ==> (n.value)(r@[i]) == (n.value)(xs@[i]) * (n.value)(window@[i]),
        i >= xs@.len() ==> (n.value)(r@[i]) == 0real,
{
}

/// The same in place.
pub proof fn window_multiplies_in_place<S: Sample>(
    n: Numbers<S>,
    xs: &mut [S],
    window: &[S],
    i: int,
)
    requires
        n.calculate(),
        old(xs)@.len() == window@.len(),
        call_ensures(state::apply_window_in_place::<S>, (xs, window), ()),
        0 <= i < window@.len(),
    ensures
        final(xs)@.len() == window@.len(),
        (n.value)(final(xs)@[i]) == (n.value)(old(xs)@[i]) * (n.value)(window@[i]),
{
}

/// Samples are multiplied each by its own factor, or all by the same.
pub proof fn samples_are_multiplied_in_place<S: Sample>(
    n: Numbers<S>,
    xs: &mut [S],
    ys: &mut [S],
    ws: &[S],
    k: S,
    i: int,
)
    requires
        n.calculate(),
        old(xs)@.len() == ws@.len(),
        call_ensures(sample::mul_inplace::<S>, (xs, ws), ()),
        call_ensures(sample::scale_inplace::<S>, (ys, k), ()),
        0 <= i,
    ensures
        final(xs)@.len() == old(xs)@.len(),
        final(ys)@.len() == old(ys)@.len(),
        i < ws@.len() ==> (n.value)(final(xs)@[i]) == (n.value)(old(xs)@[i]) * (n.value)(ws@[i]),
        i < old(ys)@.len() ==> (n.value)(final(ys)@[i]) == (n.value)(old(ys)@[i]) * (n.value)(k),
{
}

/// Zeros are zero, as many as are asked for.
pub proof fn zeros_are_zero<S: Sample>(n: Numbers<S>, len: usize, v: Vec<S>, i: int)
    requires
        n.calculate(),
        call_ensures(sample::zeros::<S>, (len,), v),
        0 <= i < len,
    ensures
        v@.len() == len,
        (n.value)(v@[i]) == 0real,
{
    assert(sample::is_zero(v@[i]));
}

// The factor of the analysis.

pub proof fn lemma_wnorm<S: Sample>(n: Numbers<S>, window_size: usize, frame_size: usize, r: S)
    requires
        n.calculate(),
        features::wnorm_is(window_size, frame_size, r),
        window_size * window_size <= usize::MAX,
        2 * frame_size <= usize::MAX,
        0 < frame_size,
        0 < window_size,
    ensures
        (n.value)(r) * (window_size as real * window_size as real) == 2real * (frame_size as real),
{
    let (one, area, hops, ratio) = choose|one: S, area: S, hops: S, ratio: S|
        {
            &&& #[trigger] sample::is_one(one)
            &&& #[trigger] sample::is_count((window_size * window_size) as usize, area)
            &&& #[trigger] sample::is_count((2 * frame_size) as usize, hops)
            &&& #[trigger] sample::divides(area, hops, ratio)
            &&& sample::divides(one, ratio, r)
        };
    let vw = window_size as real;
    let vf = frame_size as real;
    let va = (n.value)(area);
    let vh = (n.value)(hops);
    let vq = (n.value)(ratio);
    let vr = (n.value)(r);
    assert((window_size * window_size) as real == vw * vw) by (nonlinear_arith)
        requires
            vw == window_size as real,
    ;
    assert((2 * frame_size) as real == 2real * vf);
    assert(vw * vw > 0real) by (nonlinear_arith)
        requires
            vw > 0real,
    ;
    assert(vq != 0real) by (nonlinear_arith)
        requires
            vq * vh == va,
            va > 0real,
    ;
    assert(vr * (vw * vw) == 2real * vf) by (nonlinear_arith)
        requires
            vr * vq == 1real,
            vq * vh == vw * vw,
            vh == 2real * vf,
    ;
}

/// The factor of a stream's analysis, times the square of the window size, is twice the hop size.
pub proof fn analysis_factor_goes_with_the_hop<S: Sample, W: Wider<S>>(
    n: Numbers<S>,
    sr: usize,
    fft_size: usize,
    hop_size: usize,
    nb_bands: usize,
    min_nb_freqs: usize,
    r: Option<DFState<S>>,
)
    requires
        n.calculate(),
        hop_size * 2 <= fft_size,
        fft_size * fft_size <= usize::MAX,
        hop_size > 0,
        call_ensures(
            DFState::<S>::new::<W>,
            (sr, fft_size, hop_size, nb_bands, min_nb_freqs),
            r,
        ),
        r is Some,
    ensures
        (n.value)(r->Some_0.wnorm) * (fft_size as real * fft_size as real) == 2real * (
        hop_size as real),
        r->Some_0.frame_size == hop_size,
        r->Some_0.window_size == fft_size,
        r->Some_0.freq_size == fft_size as int / 2 + 1,
        r->Some_0.sr == sr,
{
    let state = r->Some_0;
    assert(state.is_fresh::<W>(sr, fft_size, hop_size));
    lemma_wnorm(n, fft_size, hop_size, state.wnorm);
}

/// The same of a stream with a given band layout, whose window is complete: the squares of any two
/// of its places half a window apart add up to one.
pub proof fn stream_is_set_up_for_its_window<S: Sample, W: Wider<S>>(
    n: Numbers<S>,
    w: Numbers<W>,
    sr: usize,
    fft_size: usize,
    hop_size: usize,
    erb: Vec<usize>,
    r: DFState<S>,
)
    requires
        n.calculate(),
        w.calculate(),
        w.compute_functions(),
        w.turn_right(),
        narrows_exactly(n, w),
        hop_size * 2 <= fft_size,
        fft_size * fft_size <= usize::MAX,
        hop_size > 0,
        erb@.len() > 0,
        crate::erb::band_start(erb@, erb@.len() as int) == fft_size as int / 2 + 1,
        call_ensures(DFState::<S>::with_bands::<W>, (sr, fft_size, hop_size, erb), r),
    ensures
        (n.value)(r.wnorm) * (fft_size as real * fft_size as real) == 2real * (hop_size as real),
        r.sr == sr,
        r.frame_size == hop_size,
        r.window_size == fft_size,
        r.freq_size == fft_size as int / 2 + 1,
        r.erb == erb,
        r.window@.len() == fft_size,
        forall|i: int| #![trigger r.window@[i]]
            0 <= i < fft_size ==> ({
                let a = (w.sin)(
                    (w.pi / 2real) * (i as real + 1real / 2real) / ((fft_size as int / 2) as real),
                );
                (n.value)(r.window@[i]) == (w.sin)((w.pi / 2real) * (a * a))
            }),
        forall|i: int| #![trigger r.window@[i]]
            0 <= i < fft_size as int / 2 ==> numbers::square((n.value)(r.window@[i]))
                + numbers::square((n.value)(r.window@[i + fft_size as int / 2])) == 1real,
        r.analysis_mem@.len() == fft_size - hop_size,
        r.synthesis_mem@.len() == fft_size - hop_size,
        forall|i: int|
            0 <= i < fft_size - hop_size ==> (n.value)(#[trigger] r.analysis_mem@[i]) == 0real,
        forall|i: int|
            0 <= i < fft_size - hop_size ==> (n.value)(#[trigger] r.synthesis_mem@[i]) == 0real,
        r.mean_norm_state@.len() == 0,
        r.unit_norm_state@.len() == 0,
{
    lemma_wnorm(n, fft_size, hop_size, r.wnorm);
    let half = fft_size as int / 2;
    assert forall|i: int| #![trigger r.window@[i]] 0 <= i < fft_size implies ({
        let a = (w.sin)((w.pi / 2real) * (i as real + 1real / 2real) / (half as real));
        (n.value)(r.window@[i]) == (w.sin)((w.pi / 2real) * (a * a))
    }) by {
        assert(features::vorbis_is::<S, W>(i as usize, half as usize, r.window@[i]));
        lemma_vorbis(n, w, i as usize, half as usize, r.window@[i]);
    }
    assert forall|i: int| #![trigger r.window@[i]] 0 <= i < half implies numbers::square(
        (n.value)(r.window@[i]),
    ) + numbers::square((n.value)(r.window@[i + half])) == 1real by {
        assert(features::vorbis_is::<S, W>(i as usize, half as usize, r.window@[i]));
        assert(features::vorbis_is::<S, W>(
            (i + half) as usize,
            half as usize,
            r.window@[i + half],
        ));
        lemma_opposite_places(
            n,
            w,
            i as usize,
            (i + half) as usize,
            half as usize,
            r.window@[i],
            r.window@[i + half],
        );
    }
}

/// Halving the hop halves the factor of the analysis.
pub proof fn half_the_hop_takes_half_the_factor<S: Sample, W: Wider<S>>(
    n: Numbers<S>,
    sr: usize,
    fft_size: usize,
    hop_size: usize,
    erb: Vec<usize>,
    whole: DFState<S>,
    half: DFState<S>,
)
    requires
        n.calculate(),
        hop_size * 2 <= fft_size,
        fft_size * fft_size <= usize::MAX,
        hop_size > 0,
        hop_size % 2 == 0,
        erb@.len() > 0,
        crate::erb::band_start(erb@, erb@.len() as int) == fft_size as int / 2 + 1,
        call_ensures(DFState::<S>::with_bands::<W>, (sr, fft_size, hop_size, erb), whole),
        call_ensures(
            DFState::<S>::with_bands::<W>,
            (sr, fft_size, (hop_size / 2) as usize, erb),
            half,
        ),
    ensures
        (n.value)(whole.wnorm) == 2real * (n.value)(half.wnorm),
{
    let hop2 = (hop_size / 2) as usize;
    lemma_wnorm(n, fft_size, hop_size, whole.wnorm);
    lemma_wnorm(n, fft_size, hop2, half.wnorm);
    let a = (n.value)(whole.wnorm);
    let b = (n.value)(half.wnorm);
    let vw = fft_size as real;
    let area = vw * vw;
    assert(area > 0real) by (nonlinear_arith)
        requires
            area == vw * vw,
            vw > 0real,
    ;
    assert(hop_size as real == 2real * (hop2 as real));
    let h = hop2 as real;
    assert(a == 2real * b) by (nonlinear_arith)
        requires
            a * area == 2real * (2real * h),
            b * area == 2real * h,
            area > 0real,
    ;
}

} // verus!
