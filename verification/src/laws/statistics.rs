//! What the statistics of a run of samples say of it.
use vstd::prelude::*;

use crate::laws::numbers;
use crate::laws::numbers::Numbers;
use crate::sample;
use crate::sample::Sample;
use crate::stats;
use crate::stats::NonNan;

verus! {

/// The number that a sample counts as: its magnitude, or itself.
spec fn counts_as<S: Sample>(n: Numbers<S>, by_size: bool, v: S) -> real {
    if by_size {
        numbers::abs((n.value)(v))
    } else {
        (n.value)(v)
    }
}

proof fn lemma_extreme<S: Sample>(
    n: Numbers<S>,
    by_size: bool,
    greatest: bool,
    start: S,
    vals: Seq<S>,
    k: int,
    acc: S,
)
    requires
        n.compare(),
        0 <= k <= vals.len(),
        stats::extreme_is(by_size, greatest, start, vals, k, acc),
    ensures
        greatest ==> (n.value)(acc) >= (n.value)(start),
        !greatest ==> (n.value)(acc) <= (n.value)(start),
        greatest ==> forall|i: int|
            0 <= i < k ==> (n.value)(acc) >= counts_as(n, by_size, #[trigger] vals[i]),
        !greatest ==> forall|i: int|
            0 <= i < k ==> (n.value)(acc) <= counts_as(n, by_size, #[trigger] vals[i]),
        (n.value)(acc) == (n.value)(start) || exists|i: int|
            0 <= i < k && (n.value)(acc) == counts_as(n, by_size, #[trigger] vals[i]),
    decreases k,
{
    if k > 0 {
        let prev = choose|prev: S|
            stats::extreme_is(by_size, greatest, start, vals, k - 1, prev)
                && #[trigger] stats::extreme_step_is(by_size, greatest, prev, vals[k - 1], acc);
        lemma_extreme(n, by_size, greatest, start, vals, k - 1, prev);
        let x = choose|x: S|
            {
                &&& stats::measure_is(by_size, vals[k - 1], x)
                &&& #[trigger] call_ensures(S::is_undefined, (x,), false)
                &&& if greatest {
                    call_ensures(S::greater, (x, prev), acc)
                } else {
                    call_ensures(S::lesser, (x, prev), acc)
                }
            };
        assert((n.value)(x) == counts_as(n, by_size, vals[k - 1]));
        if (n.value)(acc) == (n.value)(x) {
            assert((n.value)(acc) == counts_as(n, by_size, vals[k - 1]));
        } else if (n.value)(prev) != (n.value)(start) {
            let i = choose|i: int|
                0 <= i < k - 1 && (n.value)(prev) == counts_as(n, by_size, #[trigger] vals[i]);
            assert((n.value)(acc) == counts_as(n, by_size, vals[i]));
        }
    }
}

proof fn lemma_found<S: Sample>(
    n: Numbers<S>,
    by_size: bool,
    greatest: bool,
    start: S,
    vals: Seq<S>,
    r: Option<S>,
)
    requires
        n.compare(),
        n.are_defined(),
        stats::extreme_of_all_is(by_size, greatest, start, vals, r),
    ensures
        r is Some,
        stats::extreme_is(by_size, greatest, start, vals, vals.len() as int, r->0),
{
    if r is None {
        let k = choose|k: int|
            0 <= k < vals.len() && #[trigger] stats::measures_nothing(by_size, vals[k]) && exists|
                acc: S,
            |
                stats::extreme_is(by_size, greatest, start, vals, k, acc);
        let x = choose|x: S|
            stats::measure_is(by_size, vals[k], x) && #[trigger] call_ensures(
                S::is_undefined,
                (x,),
                true,
            );
        assert(false);
    }
}

/// The greatest sample is one of the samples, and none is greater; of none it is the lowest value
/// there is.
pub proof fn greatest_is_one_of_the_samples<S: Sample>(n: Numbers<S>, vals: &[S], r: Option<S>)
    requires
        n.compare(),
        n.are_defined(),
        n.stay_in_range(),
        call_ensures(stats::find_max::<S>, (vals,), r),
    ensures
        r is Some,
        forall|i: int| 0 <= i < vals@.len() ==> (n.value)(#[trigger] vals@[i]) <= (n.value)(r->0),
        vals@.len() > 0 ==> exists|i: int|
            0 <= i < vals@.len() && (n.value)(r->0) == (n.value)(#[trigger] vals@[i]),
        vals@.len() == 0 ==> forall|a: S| (n.value)(r->0) <= #[trigger] (n.value)(a),
{
    let start = choose|start: S| #[trigger]
        call_ensures(S::lowest, (), start) && stats::extreme_of_all_is(
            false,
            true,
            start,
            vals@,
            r,
        );
    lemma_found(n, false, true, start, vals@, r);
    lemma_extreme(n, false, true, start, vals@, vals@.len() as int, r->0);
    assert forall|i: int| 0 <= i < vals@.len() implies (n.value)(#[trigger] vals@[i]) <= (n.value)(
        r->0,
    ) by {
        assert(counts_as(n, false, vals@[i]) == (n.value)(vals@[i]));
    }
    if vals@.len() > 0 {
        if (n.value)(r->0) == (n.value)(start) {
            assert((n.value)(start) <= (n.value)(vals@[0]));
            assert((n.value)(vals@[0]) <= (n.value)(r->0));
        } else {
            let i = choose|i: int|
                0 <= i < vals@.len() && (n.value)(r->0) == counts_as(n, false, #[trigger] vals@[i]);
            assert((n.value)(r->0) == (n.value)(vals@[i]));
        }
    }
}

/// The least sample is one of the samples, and none is less; of none it is the highest value there
/// is.
pub proof fn least_is_one_of_the_samples<S: Sample>(n: Numbers<S>, vals: &[S], r: Option<S>)
    requires
        n.compare(),
        n.are_defined(),
        n.stay_in_range(),
        call_ensures(stats::find_min::<S>, (vals,), r),
    ensures
        r is Some,
        forall|i: int| 0 <= i < vals@.len() ==> (n.value)(#[trigger] vals@[i]) >= (n.value)(r->0),
        vals@.len() > 0 ==> exists|i: int|
            0 <= i < vals@.len() && (n.value)(r->0) == (n.value)(#[trigger] vals@[i]),
        vals@.len() == 0 ==> forall|a: S| (n.value)(r->0) >= #[trigger] (n.value)(a),
{
    let start = choose|start: S| #[trigger]
        call_ensures(S::highest, (), start) && stats::extreme_of_all_is(
            false,
            false,
            start,
            vals@,
            r,
        );
    lemma_found(n, false, false, start, vals@, r);
    lemma_extreme(n, false, false, start, vals@, vals@.len() as int, r->0);
    assert forall|i: int| 0 <= i < vals@.len() implies (n.value)(#[trigger] vals@[i]) >= (n.value)(
        r->0,
    ) by {
        assert(counts_as(n, false, vals@[i]) == (n.value)(vals@[i]));
    }
    if vals@.len() > 0 {
        if (n.value)(r->0) == (n.value)(start) {
            assert((n.value)(start) >= (n.value)(vals@[0]));
            assert((n.value)(vals@[0]) >= (n.value)(r->0));
        } else {
            let i = choose|i: int|
                0 <= i < vals@.len() && (n.value)(r->0) == counts_as(n, false, #[trigger] vals@[i]);
            assert((n.value)(r->0) == (n.value)(vals@[i]));
        }
    }
}

/// The greatest magnitude is that of one of the samples, and none is greater; of none it is zero.
pub proof fn greatest_magnitude_is_that_of_a_sample<S: Sample>(
    n: Numbers<S>,
    vals: &[S],
    r: Option<S>,
)
    requires
        n.calculate(),
        n.compare(),
        n.are_defined(),
        call_ensures(stats::find_max_abs::<S>, (vals,), r),
    ensures
        r is Some,
        (n.value)(r->0) >= 0real,
        forall|i: int|
            0 <= i < vals@.len() ==> -(n.value)(r->0) <= (n.value)(#[trigger] vals@[i]) <= (
            n.value)(r->0),
        vals@.len() > 0 ==> exists|i: int|
            0 <= i < vals@.len() && ((n.value)(r->0) == (n.value)(#[trigger] vals@[i]) || (
            n.value)(r->0) == -(n.value)(vals@[i])),
        vals@.len() == 0 ==> (n.value)(r->0) == 0real,
{
    let start = choose|start: S| #[trigger]
        sample::is_zero(start) && stats::extreme_of_all_is(true, true, start, vals@, r);
    lemma_found(n, true, true, start, vals@, r);
    lemma_extreme(n, true, true, start, vals@, vals@.len() as int, r->0);
    assert forall|i: int| 0 <= i < vals@.len() implies -(n.value)(r->0) <= (n.value)(
        #[trigger] vals@[i],
    ) <= (n.value)(r->0) by {
        assert(counts_as(n, true, vals@[i]) <= (n.value)(r->0));
    }
    if vals@.len() > 0 {
        if (n.value)(r->0) == 0real {
            assert(-(n.value)(r->0) <= (n.value)(vals@[0]) <= (n.value)(r->0));
        } else {
            let i = choose|i: int|
                0 <= i < vals@.len() && (n.value)(r->0) == counts_as(n, true, #[trigger] vals@[i]);
            assert((n.value)(r->0) == (n.value)(vals@[i]) || (n.value)(r->0) == -(n.value)(
                vals@[i],
            ));
        }
    }
}

/// The least of zero and all magnitudes is zero.
pub proof fn least_magnitude_counts_zero<S: Sample>(n: Numbers<S>, vals: &[S], r: Option<S>)
    requires
        n.calculate(),
        n.compare(),
        n.are_defined(),
        call_ensures(stats::find_min_abs::<S>, (vals,), r),
    ensures
        r is Some,
        (n.value)(r->0) == 0real,
{
    let start = choose|start: S| #[trigger]
        sample::is_zero(start) && stats::extreme_of_all_is(true, false, start, vals@, r);
    lemma_found(n, true, false, start, vals@, r);
    lemma_extreme(n, true, false, start, vals@, vals@.len() as int, r->0);
    if (n.value)(r->0) != 0real {
        let i = choose|i: int|
            0 <= i < vals@.len() && (n.value)(r->0) == counts_as(n, true, #[trigger] vals@[i]);
        assert(counts_as(n, true, vals@[i]) >= 0real);
    }
}

proof fn lemma_all_are_numbers<S: Sample>(
    by_size: bool,
    greatest: bool,
    start: S,
    vals: Seq<S>,
    k: int,
    acc: S,
    i: int,
)
    requires
        0 <= i < k <= vals.len(),
        stats::extreme_is(by_size, greatest, start, vals, k, acc),
    ensures
        exists|x: S|
            {
                &&& by_size ==> call_ensures(S::magnitude, (vals[i],), x)
                &&& !by_size ==> x == vals[i]
                &&& #[trigger] call_ensures(S::is_undefined, (x,), false)
            },
    decreases k,
{
    let prev = choose|prev: S|
        stats::extreme_is(by_size, greatest, start, vals, k - 1, prev)
            && #[trigger] stats::extreme_step_is(by_size, greatest, prev, vals[k - 1], acc);
    if i < k - 1 {
        lemma_all_are_numbers(by_size, greatest, start, vals, k - 1, prev, i);
    }
}

/// Extremes of samples are there exactly if all samples are numbers.
pub proof fn extremes_are_those_of_numbers<S: Sample>(vals: &[S], max: Option<S>, min: Option<S>)
    requires
        call_ensures(stats::find_max::<S>, (vals,), max),
        call_ensures(stats::find_min::<S>, (vals,), min),
    ensures
        max is Some ==> forall|i: int|
            0 <= i < vals@.len() ==> call_ensures(
                S::is_undefined,
                (#[trigger] vals@[i],),
                false,
            ),
        max is None ==> exists|i: int|
            0 <= i < vals@.len() && call_ensures(S::is_undefined, (#[trigger] vals@[i],), true),
        min is Some ==> forall|i: int|
            0 <= i < vals@.len() ==> call_ensures(
                S::is_undefined,
                (#[trigger] vals@[i],),
                false,
            ),
        min is None ==> exists|i: int|
            0 <= i < vals@.len() && call_ensures(S::is_undefined, (#[trigger] vals@[i],), true),
{
    let low = choose|start: S| #[trigger]
        call_ensures(S::lowest, (), start) && stats::extreme_of_all_is(
            false,
            true,
            start,
            vals@,
            max,
        );
    let high = choose|start: S| #[trigger]
        call_ensures(S::highest, (), start) && stats::extreme_of_all_is(
            false,
            false,
            start,
            vals@,
            min,
        );
    if max is Some {
        assert forall|i: int| 0 <= i < vals@.len() implies call_ensures(
            S::is_undefined,
            (#[trigger] vals@[i],),
            false,
        ) by {
            lemma_all_are_numbers(false, true, low, vals@, vals@.len() as int, max->0, i);
        }
    }
    if min is Some {
        assert forall|i: int| 0 <= i < vals@.len() implies call_ensures(
            S::is_undefined,
            (#[trigger] vals@[i],),
            false,
        ) by {
            lemma_all_are_numbers(false, false, high, vals@, vals@.len() as int, min->0, i);
        }
    }
}

/// Extremes of magnitudes are there exactly if all magnitudes are numbers.
pub proof fn extremes_of_magnitudes_are_those_of_numbers<S: Sample>(
    vals: &[S],
    max: Option<S>,
    min: Option<S>,
)
    requires
        call_ensures(stats::find_max_abs::<S>, (vals,), max),
        call_ensures(stats::find_min_abs::<S>, (vals,), min),
    ensures
        max is Some ==> forall|i: int| #![trigger vals@[i]]
            0 <= i < vals@.len() ==> exists|x: S|
                call_ensures(S::magnitude, (vals@[i],), x) && #[trigger] call_ensures(
                    S::is_undefined,
                    (x,),
                    false,
                ),
        max is None ==> exists|i: int, x: S|
            0 <= i < vals@.len() && #[trigger] call_ensures(S::magnitude, (vals@[i],), x)
                && call_ensures(S::is_undefined, (x,), true),
        min is Some ==> forall|i: int| #![trigger vals@[i]]
            0 <= i < vals@.len() ==> exists|x: S|
                call_ensures(S::magnitude, (vals@[i],), x) && #[trigger] call_ensures(
                    S::is_undefined,
                    (x,),
                    false,
                ),
        min is None ==> exists|i: int, x: S|
            0 <= i < vals@.len() && #[trigger] call_ensures(S::magnitude, (vals@[i],), x)
                && call_ensures(S::is_undefined, (x,), true),
{
    let zero = choose|start: S| #[trigger]
        sample::is_zero(start) && stats::extreme_of_all_is(true, true, start, vals@, max);
    let zero2 = choose|start: S| #[trigger]
        sample::is_zero(start) && stats::extreme_of_all_is(true, false, start, vals@, min);
    if max is Some {
        assert forall|i: int| #![trigger vals@[i]] 0 <= i < vals@.len() implies exists|x: S|
            call_ensures(S::magnitude, (vals@[i],), x) && #[trigger] call_ensures(
                S::is_undefined,
                (x,),
                false,
            ) by {
            lemma_all_are_numbers(true, true, zero, vals@, vals@.len() as int, max->0, i);
        }
    }
    if min is Some {
        assert forall|i: int| #![trigger vals@[i]] 0 <= i < vals@.len() implies exists|x: S|
            call_ensures(S::magnitude, (vals@[i],), x) && #[trigger] call_ensures(
                S::is_undefined,
                (x,),
                false,
            ) by {
            lemma_all_are_numbers(true, false, zero2, vals@, vals@.len() as int, min->0, i);
        }
    }
}

/// A sample counts as a number unless it is undefined, and is then kept as it is.
pub proof fn numbers_are_kept<S: Sample>(val: S, r: Option<NonNan<S>>, q: S)
    requires
        call_ensures(NonNan::<S>::new, (val,), r),
        r is Some ==> call_ensures(NonNan::<S>::get, (&r->0,), q),
    ensures
        r is None ==> call_ensures(S::is_undefined, (val,), true),
        r is Some ==> call_ensures(S::is_undefined, (val,), false) && q == val,
{
}

// Places of extremes.

proof fn lemma_peak<S: Sample>(
    n: Numbers<S>,
    vals: Seq<S>,
    k: int,
    place: usize,
    height: S,
)
    requires
        n.compare(),
        n.stay_in_range(),
        0 <= k <= vals.len(),
        k <= usize::MAX,
        stats::peak_is(false, vals, k, place, height),
    ensures
        k > 0 ==> {
            &&& place < k
            &&& (n.value)(height) == (n.value)(vals[place as int])
            &&& forall|j: int| 0 <= j < k ==> (n.value)(#[trigger] vals[j]) <= (n.value)(height)
            &&& forall|j: int|
                0 <= j < place ==> (n.value)(#[trigger] vals[j]) < (n.value)(height)
        },
        k == 0 ==> forall|a: S| (n.value)(height) <= #[trigger] (n.value)(a),
        k == 0 ==> place == 0,
    decreases k,
{
    if k > 0 {
        let (place0, height0) = choose|place0: usize, height0: S|
            stats::peak_is(false, vals, k - 1, place0, height0) && #[trigger] stats::peak_step_is(
                false,
                place0,
                height0,
                vals[k - 1],
                (k - 1) as usize,
                place,
                height,
            );
        lemma_peak(n, vals, k - 1, place0, height0);
        if k == 1 {
            assert((n.value)(height0) <= (n.value)(vals[0]));
        }
    }
}

/// The place of the greatest is that of the first among the greatest.
pub proof fn first_of_the_greatest_is_found<S: Sample>(
    n: Numbers<S>,
    vals: &[S],
    r: Option<usize>,
)
    requires
        n.compare(),
        n.stay_in_range(),
        call_ensures(stats::argmax::<S>, (vals,), r),
    ensures
        r is Some,
        vals@.len() == 0 ==> r->0 == 0,
        vals@.len() > 0 ==> {
            &&& r->0 < vals@.len()
            &&& forall|j: int|
                0 <= j < vals@.len() ==> (n.value)(#[trigger] vals@[j]) <= (n.value)(
                    vals@[r->0 as int],
                )
            &&& forall|j: int|
                0 <= j < r->0 ==> (n.value)(#[trigger] vals@[j]) < (n.value)(vals@[r->0 as int])
        },
{
    let height = choose|height: S| #[trigger]
        stats::peak_is(false, vals@, vals@.len() as int, r->0, height);
    assert(vals.len() == vals@.len());
    lemma_peak(n, vals@, vals@.len() as int, r->0, height);
}

proof fn lemma_peaks_agree<S: Sample>(
    n: Numbers<S>,
    vals: Seq<S>,
    more: Seq<S>,
    low: S,
    k: int,
    place: usize,
    height: S,
    place2: usize,
    height2: S,
)
    requires
        n.compare(),
        n.stay_in_range(),
        call_ensures(S::lowest, (), low),
        forall|j: int| 0 <= j < vals.len() ==> (n.value)(low) < (n.value)(#[trigger] vals[j]),
        0 <= k <= vals.len() <= more.len() <= usize::MAX,
        forall|j: int| 0 <= j < vals.len() ==> #[trigger] more[j] == vals[j],
        stats::peak_is(true, vals, k, place, height),
        stats::peak_is(true, more, k, place2, height2),
    ensures
        place == place2,
        (n.value)(height) == (n.value)(height2),
        k > 0 ==> place < k && (n.value)(height) == numbers::abs((n.value)(vals[place as int])),
        k == 0 ==> (n.value)(height) == (n.value)(low),
    decreases k,
{
    if k > 0 {
        let (p, h) = choose|place0: usize, height0: S|
            stats::peak_is(true, vals, k - 1, place0, height0) && #[trigger] stats::peak_step_is(
                true,
                place0,
                height0,
                vals[k - 1],
                (k - 1) as usize,
                place,
                height,
            );
        let (p2, h2) = choose|place0: usize, height0: S|
            stats::peak_is(true, more, k - 1, place0, height0) && #[trigger] stats::peak_step_is(
                true,
                place0,
                height0,
                more[k - 1],
                (k - 1) as usize,
                place2,
                height2,
            );
        lemma_peaks_agree(n, vals, more, low, k - 1, p, h, p2, h2);
        assert(more[k - 1] == vals[k - 1]);
    } else {
        assert((n.value)(height) <= (n.value)(low) <= (n.value)(height));
        assert((n.value)(height2) <= (n.value)(low) <= (n.value)(height2));
    }
}

/// A sample that is put behind others takes the place of the greatest magnitude if it exceeds the
/// magnitude of the sample that held the place; else that one keeps it. The first sample holds the
/// place at first.
pub proof fn place_of_the_greatest_magnitude_moves_on<S: Sample>(
    n: Numbers<S>,
    vals: &[S],
    more: &[S],
    low: S,
    r: Option<usize>,
    q: Option<usize>,
)
    requires
        n.compare(),
        n.stay_in_range(),
        call_ensures(S::lowest, (), low),
        forall|j: int| 0 <= j < more@.len() ==> (n.value)(low) < (n.value)(#[trigger] more@[j]),
        more@.len() == vals@.len() + 1,
        forall|j: int| 0 <= j < vals@.len() ==> #[trigger] vals@[j] == more@[j],
        call_ensures(stats::argmax_abs::<S>, (vals,), r),
        call_ensures(stats::argmax_abs::<S>, (more,), q),
    ensures
        r is Some,
        q is Some,
        vals@.len() == 0 ==> r->0 == 0 && q->0 == 0,
        vals@.len() > 0 ==> r->0 < vals@.len() && q->0 == (if (n.value)(more@.last())
            > numbers::abs((n.value)(vals@[r->0 as int])) {
            vals@.len() as int
        } else {
            r->0 as int
        }),
{
    assert(more.len() == more@.len());
    let k = vals@.len() as int;
    let height = choose|height: S| #[trigger] stats::peak_is(true, vals@, k, r->0, height);
    let height2 = choose|height: S| #[trigger] stats::peak_is(true, more@, k + 1, q->0, height);
    let (p, h) = choose|place0: usize, height0: S|
        stats::peak_is(true, more@, k, place0, height0) && #[trigger] stats::peak_step_is(
            true,
            place0,
            height0,
            more@[k],
            k as usize,
            q->0,
            height2,
        );
    assert forall|j: int| 0 <= j < vals@.len() implies (n.value)(low) < (n.value)(
        #[trigger] vals@[j],
    ) by {
        assert(vals@[j] == more@[j]);
    }
    lemma_peaks_agree(n, vals@, more@, low, k, r->0, height, p, h);
}

// Means.

proof fn lemma_running_sum<S: Sample>(n: Numbers<S>, squared: bool, vals: Seq<S>, k: int, acc: S)
    requires
        n.calculate(),
        n.take_roots(),
        0 <= k <= vals.len(),
        stats::running_sum_is(squared, vals, k, acc),
    ensures
        !squared ==> (n.value)(acc) == numbers::total(|i: int| (n.value)(vals[i]), 0, k),
        squared ==> (n.value)(acc) == numbers::total(
            |i: int| (n.value)(vals[i]) * (n.value)(vals[i]),
            0,
            k,
        ),
        squared ==> (n.value)(acc) >= 0real,
    decreases k,
{
    if k > 0 {
        let prev = choose|prev: S|
            stats::running_sum_is(squared, vals, k - 1, prev) && #[trigger] stats::sum_step_is(
                squared,
                prev,
                vals[k - 1],
                acc,
            );
        lemma_running_sum(n, squared, vals, k - 1, prev);
        let v = (n.value)(vals[k - 1]);
        assert(v * v >= 0real) by (nonlinear_arith);
    }
}

/// The mean of some samples, times their number, is their sum.
pub proof fn mean_times_count_is_the_sum<S: Sample>(n: Numbers<S>, vals: &[S], r: S)
    requires
        n.calculate(),
        n.take_roots(),
        vals@.len() > 0,
        call_ensures(stats::mean::<S>, (vals,), r),
    ensures
        (n.value)(r) * (vals@.len() as real) == numbers::total(
            |i: int| (n.value)(vals@[i]),
            0,
            vals@.len() as int,
        ),
{
    let (sum, count) = choose|sum: S, count: S|
        {
            &&& #[trigger] stats::running_sum_is(false, vals@, vals@.len() as int, sum)
            &&& #[trigger] sample::is_count(vals@.len() as usize, count)
            &&& sample::divides(sum, count, r)
        };
    assert(vals.len() == vals@.len());
    lemma_running_sum(n, false, vals@, vals@.len() as int, sum);
}

/// The mean of no samples is zero over zero, and their root mean square its root.
pub proof fn means_of_nothing_are_zero_over_zero<S: Sample>(vals: &[S], m: S, r: S)
    requires
        vals@.len() == 0,
        call_ensures(stats::mean::<S>, (vals,), m),
        call_ensures(stats::rms::<S>, (vals,), r),
    ensures
        exists|zero: S, count: S|
            sample::is_zero(zero) && sample::is_count(0, count) && #[trigger] sample::divides(
                zero,
                count,
                m,
            ),
        exists|zero: S, count: S, square: S|
            {
                &&& sample::is_zero(zero)
                &&& sample::is_count(0, count)
                &&& #[trigger] sample::divides(zero, count, square)
                &&& sample::roots(square, r)
            },
{
    let square = choose|m: S| stats::mean_is(true, vals@, m) && #[trigger] sample::roots(m, r);
    assert(stats::mean_is(true, vals@, square));
    assert(stats::mean_is(false, vals@, m));
}

proof fn lemma_rms<S: Sample>(n: Numbers<S>, vals: Seq<S>, r: S)
    requires
        n.calculate(),
        n.take_roots(),
        0 < vals.len() <= usize::MAX,
        stats::rms_is(vals, r),
    ensures
        (n.value)(r) >= 0real,
        ((n.value)(r) * (n.value)(r)) * (vals.len() as real) == numbers::total(
            |i: int| (n.value)(vals[i]) * (n.value)(vals[i]),
            0,
            vals.len() as int,
        ),
{
    let m = choose|m: S| stats::mean_is(true, vals, m) && #[trigger] sample::roots(m, r);
    let (sum, count) = choose|sum: S, count: S|
        {
            &&& #[trigger] stats::running_sum_is(true, vals, vals.len() as int, sum)
            &&& #[trigger] sample::is_count(vals.len() as usize, count)
            &&& sample::divides(sum, count, m)
        };
    lemma_running_sum(n, true, vals, vals.len() as int, sum);
    let (vm, vs, vc) = ((n.value)(m), (n.value)(sum), vals.len() as real);
    assert(vm >= 0real) by (nonlinear_arith)
        requires
            vm * vc == vs,
            vs >= 0real,
            vc > 0real,
    ;
}

/// The square of the root mean square of some samples, times their number, is the sum of their
/// squares.
pub proof fn rms_squared_times_count_is_the_sum_of_squares<S: Sample>(
    n: Numbers<S>,
    vals: &[S],
    r: S,
)
    requires
        n.calculate(),
        n.take_roots(),
        vals@.len() > 0,
        call_ensures(stats::rms::<S>, (vals,), r),
    ensures
        (n.value)(r) >= 0real,
        ((n.value)(r) * (n.value)(r)) * (vals@.len() as real) == numbers::total(
            |i: int| (n.value)(vals@[i]) * (n.value)(vals@[i]),
            0,
            vals@.len() as int,
        ),
{
    assert(vals.len() == vals@.len());
    lemma_rms(n, vals@, r);
}

/// The same of samples that are handed over.
pub proof fn rms_of_a_vector_is_the_same<S: Sample>(n: Numbers<S>, vals: Vec<S>, r: S)
    requires
        n.calculate(),
        n.take_roots(),
        vals@.len() > 0,
        call_ensures(stats::rms_v::<S>, (vals,), r),
    ensures
        (n.value)(r) >= 0real,
        ((n.value)(r) * (n.value)(r)) * (vals@.len() as real) == numbers::total(
            |i: int| (n.value)(vals@[i]) * (n.value)(vals@[i]),
            0,
            vals@.len() as int,
        ),
{
    assert(vals.len() == vals@.len());
    lemma_rms(n, vals@, r);
}

} // verus!
