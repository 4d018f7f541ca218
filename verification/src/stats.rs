//! Statistics of a run of samples.
use vstd::prelude::*;

use crate::sample;
use crate::sample::Sample;

verus! {

/// A sample that stands for a number.
pub struct NonNan<S>(pub S);

impl<S: Sample> NonNan<S> {
    /// The sample, unless it stands for no number.
    pub fn new(val: S) -> (r: Option<NonNan<S>>)
        ensures
            call_ensures(S::is_undefined, (val,), r is None),
            r matches Some(v) ==> v.0 == val,
    {
        if val.is_undefined() {
            None
        } else {
            Some(NonNan(val))
        }
    }

    /// The sample itself.
    pub fn get(&self) -> (r: S)
        ensures
            r == self.0,
    {
        self.0
    }
}

// Extremes.

/// `x` is what a sample `v` counts as: its magnitude, or `v` itself.
pub open spec fn measure_is<S: Sample>(by_size: bool, v: S, x: S) -> bool {
    if by_size {
        call_ensures(S::magnitude, (v,), x)
    } else {
        x == v
    }
}

/// `acc` is the greater, or the lesser, of `v`'s measure and `prev`; the measure is a number.
pub open spec fn extreme_step_is<S: Sample>(
    by_size: bool,
    greatest: bool,
    prev: S,
    v: S,
    acc: S,
) -> bool {
    exists|x: S|
        {
            &&& measure_is(by_size, v, x)
            &&& #[trigger] call_ensures(S::is_undefined, (x,), false)
            &&& if greatest {
                call_ensures(S::greater, (x, prev), acc)
            } else {
                call_ensures(S::lesser, (x, prev), acc)
            }
        }
}

/// The measure of `v` is no number.
pub open spec fn measures_nothing<S: Sample>(by_size: bool, v: S) -> bool {
    exists|x: S| measure_is(by_size, v, x) && #[trigger] call_ensures(S::is_undefined, (x,), true)
}

/// `acc` is the greatest, or the least, of `start` and the measures of the first `n` samples,
/// all of which are numbers.
pub open spec fn extreme_is<S: Sample>(
    by_size: bool,
    greatest: bool,
    start: S,
    vals: Seq<S>,
    n: int,
    acc: S,
) -> bool
    decreases n,
{
    if n <= 0 {
        acc == start
    } else {
        exists|prev: S|
            extreme_is(by_size, greatest, start, vals, n - 1, prev) && #[trigger] extreme_step_is(
                by_size,
                greatest,
                prev,
                vals[n - 1],
                acc,
            )
    }
}

/// `r` is the greatest, or the least, of `start` and the measures of all samples; it is missing
/// if and only if a measure is no number.
pub open spec fn extreme_of_all_is<S: Sample>(
    by_size: bool,
    greatest: bool,
    start: S,
    vals: Seq<S>,
    r: Option<S>,
) -> bool {
    match r {
        Some(m) => extreme_is(by_size, greatest, start, vals, vals.len() as int, m),
        None => exists|k: int|
            0 <= k < vals.len() && #[trigger] measures_nothing(by_size, vals[k]) && exists|acc: S|
                extreme_is(by_size, greatest, start, vals, k, acc),
    }
}

/// The greatest, or the least, of `start` and the measures of all samples.
fn extreme<S: Sample>(by_size: bool, greatest: bool, start: S, vals: &[S]) -> (r: Option<S>)
    ensures
        extreme_of_all_is(by_size, greatest, start, vals@, r),
{
    let n: usize = vals.len();
    let mut acc: S = start;
    let mut i: usize = 0;
    while i < n
        invariant
            i <= n,
            n == vals@.len(),
            extreme_is(by_size, greatest, start, vals@, i as int, acc),
        decreases n - i,
    {
        let ghost prev = acc;
        let v: S = vals[i];
        let x: S = if by_size {
            v.magnitude()
        } else {
            v
        };
        match NonNan::new(x) {
            Some(number) => {
                acc = if greatest {
                    number.get().greater(acc)
                } else {
                    number.get().lesser(acc)
                };
            },
            None => {
                assert(measures_nothing(by_size, vals@[i as int]));
                return None;
            },
        }
        i += 1;
        assert(extreme_step_is(by_size, greatest, prev, vals@[i - 1], acc));
    }
    Some(acc)
}

/// The greatest sample; the least finite value if there are none, nothing if one is no number.
pub fn find_max<S: Sample>(vals: &[S]) -> (r: Option<S>)
    ensures
        exists|start: S| #[trigger]
            call_ensures(S::lowest, (), start) && extreme_of_all_is(false, true, start, vals@, r),
{
    extreme(false, true, S::lowest(), vals)
}

/// The greatest magnitude; zero if there are no samples, nothing if one is no number.
pub fn find_max_abs<S: Sample>(vals: &[S]) -> (r: Option<S>)
    ensures
        exists|start: S| #[trigger]
            sample::is_zero(start) && extreme_of_all_is(true, true, start, vals@, r),
{
    extreme(true, true, S::zero(), vals)
}

/// The least sample; the greatest finite value if there are none, nothing if one is no number.
pub fn find_min<S: Sample>(vals: &[S]) -> (r: Option<S>)
    ensures
        exists|start: S| #[trigger]
            call_ensures(S::highest, (), start) && extreme_of_all_is(false, false, start, vals@, r),
{
    extreme(false, false, S::highest(), vals)
}

/// The least of zero and all magnitudes, nothing if a sample is no number.
pub fn find_min_abs<S: Sample>(vals: &[S]) -> (r: Option<S>)
    ensures
        exists|start: S| #[trigger]
            sample::is_zero(start) && extreme_of_all_is(true, false, start, vals@, r),
{
    extreme(true, false, S::zero(), vals)
}

// Places of extremes.

/// After the sample `v` at place `i`, the place and height of the peak: the new sample's if it
/// exceeds the height so far, the old ones if not.
pub open spec fn peak_step_is<S: Sample>(
    by_size: bool,
    place: usize,
    height: S,
    v: S,
    i: usize,
    place2: usize,
    height2: S,
) -> bool {
    ||| call_ensures(S::above, (v, height), true) && place2 == i && measure_is(by_size, v, height2)
    ||| call_ensures(S::above, (v, height), false) && place2 == place && height2 == height
}

/// `place` and `height` are those of the peak of the first `n` samples: a later sample takes the
/// place when it exceeds the height so far, which it then sets to its measure.
pub open spec fn peak_is<S: Sample>(
    by_size: bool,
    vals: Seq<S>,
    n: int,
    place: usize,
    height: S,
) -> bool
    decreases n,
{
    if n <= 0 {
        place == 0 && call_ensures(S::lowest, (), height)
    } else {
        exists|place0: usize, height0: S|
            peak_is(by_size, vals, n - 1, place0, height0) && #[trigger] peak_step_is(
                by_size,
                place0,
                height0,
                vals[n - 1],
                (n - 1) as usize,
                place,
                height,
            )
    }
}

/// The peak of some samples lies among them; that of none at place zero.
pub proof fn peak_lies_among_samples<S: Sample>(
    by_size: bool,
    vals: Seq<S>,
    n: int,
    place: usize,
    height: S,
)
    requires
        0 <= n <= usize::MAX,
        peak_is(by_size, vals, n, place, height),
    ensures
        n > 0 ==> place < n,
        n == 0 ==> place == 0,
    decreases n,
{
    if n > 0 {
        let (place0, height0) = choose|place0: usize, height0: S|
            peak_is(by_size, vals, n - 1, place0, height0) && #[trigger] peak_step_is(
                by_size,
                place0,
                height0,
                vals[n - 1],
                (n - 1) as usize,
                place,
                height,
            );
        peak_lies_among_samples(by_size, vals, n - 1, place0, height0);
    }
}

/// The place of the peak.
fn peak<S: Sample>(by_size: bool, vals: &[S]) -> (r: usize)
    ensures
        exists|height: S| #[trigger] peak_is(by_size, vals@, vals@.len() as int, r, height),
{
    let n: usize = vals.len();
    let mut index: usize = 0;
    let mut high: S = S::lowest();
    let mut i: usize = 0;
    while i < n
        invariant
            i <= n,
            n == vals@.len(),
            peak_is(by_size, vals@, i as int, index, high),
        decreases n - i,
    {
        let ghost place = index;
        let ghost height = high;
        let v: S = vals[i];
        if v.above(high) {
            high = if by_size {
                v.magnitude()
            } else {
                v
            };
            index = i;
        }
        i += 1;
        assert(peak_step_is(
            by_size,
            place,
            height,
            vals@[i - 1],
            (i - 1) as usize,
            index,
            high,
        ));
    }
    index
}

/// The place of the first of the greatest samples, or zero if no sample exceeds the least finite
/// value.
pub fn argmax<S: Sample>(vals: &[S]) -> (r: Option<usize>)
    ensures
        r is Some,
        exists|height: S| #[trigger]
            peak_is(false, vals@, vals@.len() as int, r->0, height),
{
    let index: usize = peak(false, vals);
    let r: Option<usize> = Some(index);
    proof {
        let height = choose|height: S| #[trigger]
            peak_is(false, vals@, vals@.len() as int, index, height);
        assert(peak_is(false, vals@, vals@.len() as int, r->0, height));
    }
    r
}

/// The place of the last sample that exceeds the magnitude of the one that held the place
/// before it, or zero if no sample exceeds the least finite value.
pub fn argmax_abs<S: Sample>(vals: &[S]) -> (r: Option<usize>)
    ensures
        r is Some,
        exists|height: S| #[trigger]
            peak_is(true, vals@, vals@.len() as int, r->0, height),
{
    let index: usize = peak(true, vals);
    let r: Option<usize> = Some(index);
    proof {
        let height = choose|height: S| #[trigger]
            peak_is(true, vals@, vals@.len() as int, index, height);
        assert(peak_is(true, vals@, vals@.len() as int, r->0, height));
    }
    r
}

// Means.

/// `acc` is `prev` plus the sample `v`, or plus its square.
pub open spec fn sum_step_is<S: Sample>(squared: bool, prev: S, v: S, acc: S) -> bool {
    if squared {
        exists|square: S| #[trigger]
            call_ensures(S::squared, (v,), square) && sample::adds(prev, square, acc)
    } else {
        sample::adds(prev, v, acc)
    }
}

/// `acc` is the sum of the first `n` samples, or of their squares, added from left to right.
pub open spec fn running_sum_is<S: Sample>(squared: bool, vals: Seq<S>, n: int, acc: S) -> bool
    decreases n,
{
    if n <= 0 {
        sample::is_zero(acc)
    } else {
        exists|prev: S|
            running_sum_is(squared, vals, n - 1, prev) && #[trigger] sum_step_is(
                squared,
                prev,
                vals[n - 1],
                acc,
            )
    }
}

/// `r` is the mean of the samples, or of their squares.
pub open spec fn mean_is<S: Sample>(squared: bool, vals: Seq<S>, r: S) -> bool {
    exists|sum: S, count: S|
        {
            &&& #[trigger] running_sum_is(squared, vals, vals.len() as int, sum)
            &&& #[trigger] sample::is_count(vals.len() as usize, count)
            &&& sample::divides(sum, count, r)
        }
}

/// `r` is the square root of the mean of the squares.
pub open spec fn rms_is<S: Sample>(vals: Seq<S>, r: S) -> bool {
    exists|m: S| mean_is(true, vals, m) && #[trigger] sample::roots(m, r)
}

/// The mean of the samples, or of their squares.
fn mean_of<S: Sample>(squared: bool, vals: &[S]) -> (r: S)
    ensures
        mean_is(squared, vals@, r),
{
    let n: usize = vals.len();
    let mut sum: S = S::zero();
    let mut i: usize = 0;
    while i < n
        invariant
            i <= n,
            n == vals@.len(),
            running_sum_is(squared, vals@, i as int, sum),
        decreases n - i,
    {
        let ghost prev = sum;
        sum = if squared {
            sum.plus(vals[i].squared())
        } else {
            sum.plus(vals[i])
        };
        i += 1;
        assert(sum_step_is(squared, prev, vals@[i - 1], sum));
    }
    assert(vals@.len() as usize == n);
    sum.over(S::from_count(n))
}

/// The root mean square of the samples.
pub fn rms<S: Sample>(vals: &[S]) -> (r: S)
    ensures
        rms_is(vals@, r),
{
    mean_of(true, vals).square_root()
}

/// The root mean square of samples that are handed over.
pub fn rms_v<S: Sample>(vals: Vec<S>) -> (r: S)
    ensures
        rms_is(vals@, r),
{
    rms(&vals)
}

/// The mean of the samples.
pub fn mean<S: Sample>(vals: &[S]) -> (r: S)
    ensures
        mean_is(false, vals@, r),
{
    mean_of(false, vals)
}

} // verus!
