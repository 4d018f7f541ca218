//! What becomes of the samples of a sound file.
use vstd::prelude::*;

use crate::laws::numbers;
use crate::laws::numbers::Numbers;
use crate::sample;
use crate::sample::Sample;
use crate::wav;
use crate::wav::WavError;

verus! {

/// A sample rate is accepted exactly if it is 16 kHz, and one that is not is reported.
pub proof fn one_rate_is_accepted(sample_rate: u32, r: Result<(), WavError>)
    requires
        call_ensures(wav::check_rate, (sample_rate,), r),
    ensures
        sample_rate == 16000 ==> r is Ok,
        sample_rate != 16000 ==> r == Err::<(), WavError>(
            WavError::WrongRate { expected: 16000, found: sample_rate },
        ),
{
}

/// Full scale of one bit is one, and it doubles with every bit; that of 64 bits is the one value of
/// this size that fits, the negative one.
pub proof fn full_scale_doubles_with_every_bit(bits: u16, r: i64, q: i64)
    requires
        1 <= bits < 64,
        call_ensures(wav::full_scale, (bits,), r),
        call_ensures(wav::full_scale, ((bits + 1) as u16,), q),
    ensures
        r > 0,
        bits == 1 ==> r == 1,
        bits < 63 ==> q == 2 * r,
        bits == 63 ==> q == -2 * r,
{
    vstd::arithmetic::power2::lemma_pow2_pos((bits - 1) as nat);
    vstd::arithmetic::power2::lemma2_to64();
    vstd::arithmetic::power2::lemma2_to64_rest();
    vstd::arithmetic::power2::lemma_pow2_unfold(bits as nat);
}

/// A decoded sample, times full scale, is the integer that it was read as.
pub proof fn decoded_samples_are_measured_against_full_scale<S: Sample>(
    n: Numbers<S>,
    samples: &[i32],
    bits: u16,
    r: Vec<S>,
    full: i64,
    i: int,
)
    requires
        n.calculate(),
        1 <= bits <= 64,
        call_ensures(wav::decode::<S>, (samples, bits), r),
        call_ensures(wav::full_scale, (bits,), full),
        0 <= i < samples@.len(),
    ensures
        r@.len() == samples@.len(),
        full != 0,
        (n.value)(r@[i]) * (full as real) == samples@[i] as real,
{
    let scale = choose|scale: S|
        {
            &&& #[trigger] sample::is_int(wav::full_scale_of(bits as int) as i64, scale)
            &&& forall|i: int|
                0 <= i < samples@.len() ==> wav::decoded_is(samples@[i], scale, #[trigger] r@[i])
        };
    assert(wav::decoded_is(samples@[i], scale, r@[i]));
    let number = choose|number: S| #[trigger]
        sample::is_int(samples@[i] as i64, number) && sample::divides(number, scale, r@[i]);
    if bits < 64 {
        vstd::arithmetic::power2::lemma_pow2_pos((bits - 1) as nat);
    }
    assert((n.value)(scale) == full as real);
}

proof fn lemma_sum_from_first<S: Sample>(n: Numbers<S>, samples: Seq<S>, k: int, acc: S)
    requires
        n.calculate(),
        1 <= k <= samples.len(),
        wav::sum_from_first_is(samples, k, acc),
    ensures
        (n.value)(acc) == numbers::total(|i: int| (n.value)(samples[i]), 0, k),
    decreases k,
{
    reveal_with_fuel(numbers::total, 2);
    if k > 1 {
        let prev = choose|prev: S|
            wav::sum_from_first_is(samples, k - 1, prev) && #[trigger] sample::adds(
                prev,
                samples[k - 1],
                acc,
            );
        lemma_sum_from_first(n, samples, k - 1, prev);
    }
}

proof fn lemma_total_shifted(
    f: spec_fn(int) -> real,
    g: spec_fn(int) -> real,
    lo: int,
    k: int,
)
    requires
        0 <= k,
        forall|i: int| 0 <= i < k ==> #[trigger] f(i) == g(lo + i),
    ensures
        numbers::total(f, 0, k) == numbers::total(g, lo, lo + k),
    decreases k,
{
    if k > 0 {
        lemma_total_shifted(f, g, lo, k - 1);
        assert(f(k - 1) == g(lo + (k - 1)));
    }
}

/// The channels of a sound are mixed moment by moment: what comes of moment `k`, times the number
/// of channels, is the sum of the samples from place `k ch` on, as many as there are channels or
/// are left. A sound of one channel stays as it is.
pub proof fn channels_are_mixed_by_their_mean<S: Sample>(
    n: Numbers<S>,
    interleaved: Vec<S>,
    ch: usize,
    r: Vec<S>,
    k: int,
)
    requires
        n.calculate(),
        call_ensures(wav::downmix::<S>, (interleaved, ch), r),
        0 <= k < r@.len(),
    ensures
        ch <= 1 ==> r@ == interleaved@,
        ch > 1 ==> {
            &&& (r@.len() - 1) * ch < interleaved@.len() <= r@.len() * ch
            &&& k * ch < interleaved@.len()
            &&& (n.value)(r@[k]) * (ch as real) == numbers::total(
                |i: int| (n.value)(interleaved@[i]),
                k * ch,
                if k * ch + ch <= interleaved@.len() {
                    k * ch + ch
                } else {
                    interleaved@.len() as int
                },
            )
        },
{
    if ch > 1 {
        let len = interleaved@.len() as int;
        let c = ch as int;
        let count = r@.len() as int;
        assert(count == (len + c - 1) / c);
        vstd::arithmetic::div_mod::lemma_fundamental_div_mod(len + c - 1, c);
        assert((count - 1) * c < len <= count * c) by (nonlinear_arith)
            requires
                len + c - 1 == c * count + (len + c - 1) % c,
                0 <= (len + c - 1) % c < c,
        ;
        assert(0 <= k * c && k * c <= (count - 1) * c && (k + 1) * c == k * c + c)
            by (nonlinear_arith)
            requires
                0 <= k < count,
                c > 0,
        ;
        let m = wav::moment(interleaved@, c, k);
        assert(wav::mixed_is(m, ch, r@[k]));
        let (sum, channels) = choose|sum: S, count: S|
            {
                &&& #[trigger] wav::sum_from_first_is(m, m.len() as int, sum)
                &&& #[trigger] sample::is_count(ch, count)
                &&& sample::divides(sum, count, r@[k])
            };
        lemma_sum_from_first(n, m, m.len() as int, sum);
        lemma_total_shifted(
            |i: int| (n.value)(m[i]),
            |i: int| (n.value)(interleaved@[i]),
            k * c,
            m.len() as int,
        );
    }
}

/// The sum of a moment starts with its first sample, not with a zero before it: a single sample that
/// is left at the end is divided by the number of channels as it is, and of two channels the
/// second sample is added to the first.
pub proof fn sums_start_with_the_first_channel<S: Sample>(
    interleaved: Vec<S>,
    ch: usize,
    r: Vec<S>,
    k: int,
)
    requires
        call_ensures(wav::downmix::<S>, (interleaved, ch), r),
        ch > 1,
        0 <= k < r@.len(),
    ensures
        k * ch + 1 == interleaved@.len() ==> exists|count: S|
            sample::is_count(ch, count) && #[trigger] sample::divides(
                interleaved@[k * ch],
                count,
                r@[k],
            ),
        ch == 2 && k * 2 + 2 <= interleaved@.len() ==> exists|sum: S, count: S|
            {
                &&& #[trigger] sample::adds(interleaved@[k * 2], interleaved@[k * 2 + 1], sum)
                &&& sample::is_count(2, count)
                &&& #[trigger] sample::divides(sum, count, r@[k])
            },
{
    let c = ch as int;
    let m = wav::moment(interleaved@, c, k);
    assert((k + 1) * c == k * c + c) by (nonlinear_arith);
    assert(0 <= k * c) by (nonlinear_arith)
        requires
            0 <= k,
            c > 0,
    ;
    assert(wav::mixed_is(m, ch, r@[k]));
    let (sum, count) = choose|sum: S, count: S|
        {
            &&& #[trigger] wav::sum_from_first_is(m, m.len() as int, sum)
            &&& #[trigger] sample::is_count(ch, count)
            &&& sample::divides(sum, count, r@[k])
        };
    if k * c + 1 == interleaved@.len() {
        assert(m.len() == 1 && m[0] == interleaved@[k * c]);
        assert(sample::divides(interleaved@[k * c], count, r@[k]));
    }
    if ch == 2 && k * 2 + 2 <= interleaved@.len() {
        assert(m.len() == 2 && m[0] == interleaved@[k * 2] && m[1] == interleaved@[k * 2 + 1]);
        let prev = choose|prev: S|
            wav::sum_from_first_is(m, 1, prev) && #[trigger] sample::adds(prev, m[1], sum);
        assert(sample::adds(interleaved@[k * 2], interleaved@[k * 2 + 1], sum));
    }
}

/// Nothing comes of no samples.
pub proof fn no_samples_have_no_mix<S: Sample>(interleaved: Vec<S>, ch: usize, r: Vec<S>)
    requires
        call_ensures(wav::downmix::<S>, (interleaved, ch), r),
    ensures
        interleaved@.len() == 0 <==> r@.len() == 0,
{
    if ch > 1 {
        let len = interleaved@.len() as int;
        let c = ch as int;
        vstd::arithmetic::div_mod::lemma_fundamental_div_mod(len + c - 1, c);
        let count = (len + c - 1) / c;
        assert(len == 0 <==> count == 0) by (nonlinear_arith)
            requires
                len + c - 1 == c * count + (len + c - 1) % c,
                0 <= (len + c - 1) % c < c,
                c > 1,
                len >= 0,
        ;
    }
}

/// A signal takes the least number of hops that hold it, and one more.
pub proof fn hops_hold_the_signal_and_one_more(len: usize, r: usize)
    requires
        call_ensures(wav::frame_count, (len,), r),
    ensures
        r >= 1,
        (r - 1) * 256 >= len,
        r > 1 ==> (r - 2) * 256 < len,
{
}

proof fn lemma_quantized<S: Sample>(n: Numbers<S>, s: S, r: i16)
    requires
        n.calculate(),
        n.compare(),
        n.round(),
        wav::quantized_is(s, r),
    ensures
        ({
            let v = (n.value)(s);
            let held = if v > 1real {
                1real
            } else if v < -1real {
                -1real
            } else {
                v
            };
            -1real <= 2real * (32767real * held - r as real) <= 1real
        }),
{
    let (low, high, held, full, scaled) = choose|low: S, high: S, held: S, full: S, scaled: S|
        {
            &&& #[trigger] sample::is_decimal((-1i64) as i64, 0, low)
            &&& #[trigger] sample::is_decimal(1, 0, high)
            &&& #[trigger] call_ensures(S::held_between, (s, low, high), held)
            &&& #[trigger] sample::is_int(32767, full)
            &&& #[trigger] sample::multiplies(held, full, scaled)
            &&& call_ensures(S::nearest_short, (scaled,), r)
        };
    reveal_with_fuel(numbers::ten_to, 2);
    let (l, h) = ((n.value)(low), (n.value)(high));
    assert(l == -1real && h == 1real) by (nonlinear_arith)
        requires
            l * 1real == -1real,
            h * 1real == 1real,
    ;
    let v = (n.value)(held);
    assert(-1real <= v <= 1real);
    let x = (n.value)(scaled);
    assert(x == 32767real * v) by (nonlinear_arith)
        requires
            x == v * 32767real,
    ;
    assert(-32768real <= x <= 32767real);
}

/// A sample becomes the 16-bit integer nearest to 32767 times it; samples beyond one or minus one
/// count as one or minus one.
pub proof fn samples_become_the_nearest_shorts<S: Sample>(
    n: Numbers<S>,
    samples: &[S],
    r: Vec<i16>,
    i: int,
)
    requires
        n.calculate(),
        n.compare(),
        n.round(),
        call_ensures(wav::encode::<S>, (samples,), r),
        0 <= i < samples@.len(),
    ensures
        r@.len() == samples@.len(),
        ({
            let v = (n.value)(samples@[i]);
            let held = if v > 1real {
                1real
            } else if v < -1real {
                -1real
            } else {
                v
            };
            -1real <= 2real * (32767real * held - r@[i] as real) <= 1real
        }),
{
    lemma_quantized(n, samples@[i], r@[i]);
}

/// The same of a single sample.
pub proof fn sample_becomes_the_nearest_short<S: Sample>(n: Numbers<S>, s: S, r: i16)
    requires
        n.calculate(),
        n.compare(),
        n.round(),
        call_ensures(wav::quantize::<S>, (s,), r),
    ensures
        ({
            let v = (n.value)(s);
            let held = if v > 1real {
                1real
            } else if v < -1real {
                -1real
            } else {
                v
            };
            -1real <= 2real * (32767real * held - r as real) <= 1real
        }),
{
    lemma_quantized(n, s, r);
}

} // verus!
