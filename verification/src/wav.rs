//! Between the samples of a sound file and the samples that are enhanced.
use vstd::arithmetic::power2;
use vstd::prelude::*;

use crate::sample;
use crate::sample::Sample;
use crate::stream;
use crate::stream::{HOP, SAMPLE_RATE};

verus! {

/// Why a sound file cannot be enhanced.
#[derive(Clone, Copy, Debug, PartialEq, Eq, Structural)]
pub enum WavError {
    /// Its sample rate is not the one that the model is made for.
    WrongRate {
        /// The sample rate that the model is made for.
        expected: u32,
        /// The sample rate of the file.
        found: u32,
    },
}

/// Accepts a sample rate if it is the one that the model is made for.
pub fn check_rate(sample_rate: u32) -> (r: Result<(), WavError>)
    ensures
        r is Ok <==> sample_rate == SAMPLE_RATE,
        r matches Err(e) ==> e == (WavError::WrongRate {
            expected: SAMPLE_RATE,
            found: sample_rate,
        }),
{
    if sample_rate != SAMPLE_RATE {
        Err(WavError::WrongRate { expected: SAMPLE_RATE, found: sample_rate })
    } else {
        Ok(())
    }
}

// Reading.

/// The value that stands for full scale among samples of `bits` bits: the one that their least
/// value has, without its sign. Of 64 bits it does not fit and keeps the sign.
pub open spec fn full_scale_of(bits: int) -> int {
    if bits == 64 {
        i64::MIN as int
    } else {
        power2::pow2((bits - 1) as nat) as int
    }
}

/// The value that stands for full scale among samples of `bits` bits.
pub fn full_scale(bits: u16) -> (r: i64)
    requires
        1 <= bits <= 64,
    ensures
        r == full_scale_of(bits as int),
{
    if bits == 64 {
        i64::MIN
    } else {
        let mut r: i64 = 1;
        let mut k: u16 = 1;
        proof {
            power2::lemma2_to64();
        }
        while k < bits
            invariant
                1 <= k <= bits < 64,
                r == power2::pow2((k - 1) as nat),
            decreases bits - k,
        {
            proof {
                power2::lemma2_to64();
                power2::lemma2_to64_rest();
                power2::lemma_pow2_unfold(k as nat);
                if k < 62 {
                    power2::lemma_pow2_strictly_increases(k as nat, 62);
                }
            }
            r = r * 2;
            k += 1;
        }
        r
    }
}

/// `r` is the integer sample `v` measured against `full`.
pub open spec fn decoded_is<S: Sample>(v: i32, full: S, r: S) -> bool {
    exists|number: S| #[trigger]
        sample::is_int(v as i64, number) && sample::divides(number, full, r)
}

/// Integer samples of `bits` bits, measured against full scale.
pub fn decode<S: Sample>(samples: &[i32], bits: u16) -> (r: Vec<S>)
    requires
        1 <= bits <= 64,
    ensures
        r@.len() == samples@.len(),
        exists|full: S|
            {
                &&& #[trigger] sample::is_int(full_scale_of(bits as int) as i64, full)
                &&& forall|i: int|
                    0 <= i < samples@.len() ==> decoded_is(samples@[i], full, #[trigger] r@[i])
            },
{
    let scale: i64 = full_scale(bits);
    assert(scale == full_scale_of(bits as int) as i64);
    let full: S = S::from_int(scale);
    let n: usize = samples.len();
    let mut r: Vec<S> = Vec::new();
    let mut i: usize = 0;
    while i < n
        invariant
            i <= n,
            n == samples@.len(),
            r@.len() == i,
            forall|j: int| 0 <= j < i ==> decoded_is(samples@[j], full, #[trigger] r@[j]),
        decreases n - i,
    {
        let v: S = S::from_int(samples[i] as i64).over(full);
        assert(decoded_is(samples@[i as int], full, v));
        r.push(v);
        i += 1;
    }
    r
}

/// The samples of moment `k` in a sound of `ch` channels: as many as there are channels, or what
/// is left at the end.
pub open spec fn moment<S>(interleaved: Seq<S>, ch: int, k: int) -> Seq<S> {
    let end = if (k + 1) * ch <= interleaved.len() {
        (k + 1) * ch
    } else {
        interleaved.len() as int
    };
    interleaved.subrange(k * ch, end)
}

/// `acc` is the sum of the first `n` samples: the first of them, and the others added to it from
/// left to right.
pub open spec fn sum_from_first_is<S: Sample>(samples: Seq<S>, n: int, acc: S) -> bool
    decreases n,
{
    if n <= 1 {
        acc == samples[0]
    } else {
        exists|prev: S|
            sum_from_first_is(samples, n - 1, prev) && #[trigger] sample::adds(
                prev,
                samples[n - 1],
                acc,
            )
    }
}

/// `r` is the sum of `samples` divided by the number of channels.
pub open spec fn mixed_is<S: Sample>(samples: Seq<S>, ch: usize, r: S) -> bool {
    exists|sum: S, count: S|
        {
            &&& #[trigger] sum_from_first_is(samples, samples.len() as int, sum)
            &&& #[trigger] sample::is_count(ch, count)
            &&& sample::divides(sum, count, r)
        }
}

/// How many moments a sound of `len` samples in `ch` channels has.
pub open spec fn moment_count(len: int, ch: int) -> int {
    (len + ch - 1) / ch
}

/// Mixes the channels of a sound into one, by their mean.
pub fn downmix<S: Sample>(interleaved: Vec<S>, ch: usize) -> (r: Vec<S>)
    ensures
        ch <= 1 ==> r == interleaved,
        ch > 1 ==> {
            &&& r@.len() == moment_count(interleaved@.len() as int, ch as int)
            &&& forall|k: int|
                0 <= k < r@.len() ==> mixed_is(
                    moment(interleaved@, ch as int, k),
                    ch,
                    #[trigger] r@[k],
                )
        },
{
    if ch <= 1 {
        return interleaved;
    }
    let len: usize = interleaved.len();
    let mut r: Vec<S> = Vec::new();
    let mut pos: usize = 0;
    assert(r@.len() * ch == 0) by (nonlinear_arith)
        requires
            r@.len() == 0,
    ;
    while pos < len
        invariant
            ch > 1,
            len == interleaved@.len(),
            pos <= len,
            pos == r@.len() * ch || (pos == len && r@.len() * ch > len),
            r@.len() > 0 ==> (r@.len() - 1) * ch < len,
            forall|k: int|
                0 <= k < r@.len() ==> mixed_is(
                    moment(interleaved@, ch as int, k),
                    ch,
                    #[trigger] r@[k],
                ),
        decreases len - pos,
    {
        let end: usize = if len - pos > ch {
            pos + ch
        } else {
            len
        };
        let ghost k = r@.len() as int;
        let ghost samples = moment(interleaved@, ch as int, k);
        proof {
            assert((k + 1) * ch == k * ch + ch) by (nonlinear_arith);
            assert(samples == interleaved@.subrange(pos as int, end as int));
        }
        let mut sum: S = interleaved[pos];
        let mut i: usize = pos + 1;
        while i < end
            invariant
                pos < i <= end <= len,
                len == interleaved@.len(),
                samples == interleaved@.subrange(pos as int, end as int),
                sum_from_first_is(samples, i - pos, sum),
            decreases end - i,
        {
            let ghost prev = sum;
            sum = sum.plus(interleaved[i]);
            i += 1;
            assert(sample::adds(prev, samples[i - pos - 1], sum));
        }
        let mixed: S = sum.over(S::from_count(ch));
        assert(mixed_is(samples, ch, mixed));
        r.push(mixed);
        pos = end;
    }
    proof {
        lemma_moment_count(len as int, ch as int, r@.len() as int);
    }
    r
}

/// The count of moments is the least one that holds all samples.
proof fn lemma_moment_count(len: int, ch: int, n: int)
    requires
        ch > 1,
        len >= 0,
        n >= 0,
        n * ch >= len,
        n > 0 ==> (n - 1) * ch < len,
    ensures
        n == moment_count(len, ch),
{
    let rest = len - 1 - (n - 1) * ch;
    assert(len + ch - 1 == n * ch + rest) by (nonlinear_arith)
        requires
            rest == len - 1 - (n - 1) * ch,
    ;
    assert(0 <= rest < ch) by (nonlinear_arith)
        requires
            rest == len - 1 - (n - 1) * ch,
            ch > 1,
            len >= 0,
            n >= 0,
            n * ch >= len,
            n > 0 ==> (n - 1) * ch < len,
    ;
    vstd::arithmetic::div_mod::lemma_fundamental_div_mod_converse(len + ch - 1, ch, n, rest);
}

/// How many hops it takes to enhance a signal of `len` samples.
pub fn frame_count(len: usize) -> (r: usize)
    ensures
        r == stream::frame_count(len as int),
{
    let whole: usize = len / HOP;
    if len % HOP == 0 {
        whole + 1
    } else {
        whole + 2
    }
}

// Writing.

/// `r` is the sample `s` as a 16-bit integer: held between -1 and 1, measured in steps of full
/// scale, and rounded.
pub open spec fn quantized_is<S: Sample>(s: S, r: i16) -> bool {
    exists|low: S, high: S, held: S, full: S, scaled: S|
        {
            &&& #[trigger] sample::is_decimal((-1i64) as i64, 0, low)
            &&& #[trigger] sample::is_decimal(1, 0, high)
            &&& #[trigger] call_ensures(S::held_between, (s, low, high), held)
            &&& #[trigger] sample::is_int(32767, full)
            &&& #[trigger] sample::multiplies(held, full, scaled)
            &&& call_ensures(S::nearest_short, (scaled,), r)
        }
}

/// A sample as a 16-bit integer.
pub fn quantize<S: Sample>(s: S) -> (r: i16)
    ensures
        quantized_is(s, r),
{
    s.held_between(S::decimal(-1, 0), S::decimal(1, 0)).times(S::from_int(32767)).nearest_short()
}

/// Samples as 16-bit integers.
pub fn encode<S: Sample>(samples: &[S]) -> (r: Vec<i16>)
    ensures
        r@.len() == samples@.len(),
        forall|i: int| 0 <= i < samples@.len() ==> quantized_is(samples@[i], #[trigger] r@[i]),
{
    let n: usize = samples.len();
    let mut r: Vec<i16> = Vec::new();
    let mut i: usize = 0;
    while i < n
        invariant
            i <= n,
            n == samples@.len(),
            r@.len() == i,
            forall|j: int| 0 <= j < i ==> quantized_is(samples@[j], #[trigger] r@[j]),
        decreases n - i,
    {
        r.push(quantize(samples[i]));
        i += 1;
    }
    r
}

} // verus!
