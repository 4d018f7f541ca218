//! What the median of a run of values is, and what becomes of the run.
use core::cmp::Ordering;
use vstd::prelude::*;
use vstd::std_specs::cmp::PartialOrdSpec;

use crate::median;
use crate::order;

verus! {

/// The median leaves the same values behind, in their order, equal values in the order in which
/// they came, and is the one in the middle: of an even number, the upper one of the two.
pub proof fn median_sorts_and_takes_the_middle<T: PartialOrd + Copy>(x: &mut [T], m: T)
    requires
        old(x)@.len() > 0,
        call_ensures(median::median::<T>, (x,), m),
    ensures
        final(x)@.len() == old(x)@.len(),
        m == final(x)@[old(x)@.len() as int / 2],
        exists|p: Seq<int>|
            {
                &&& #[trigger] p.len() == old(x)@.len()
                &&& forall|i: int| 0 <= i < p.len() ==> 0 <= #[trigger] p[i] < p.len()
                &&& forall|i: int, j: int|
                    0 <= i < j < p.len() ==> #[trigger] p[i] != #[trigger] p[j]
                &&& forall|i: int| #![trigger final(x)@[i]] #![trigger p[i]]
                    0 <= i < p.len() ==> final(x)@[i] == old(x)@[p[i]]
                &&& order::is_ordered(old(x)@) ==> forall|i: int, j: int|
                    0 <= i < j < p.len() ==> {
                        &&& !order::less(old(x)@[#[trigger] p[j]], old(x)@[#[trigger] p[i]])
                        &&& !order::less(old(x)@[p[i]], old(x)@[p[j]]) ==> p[i] < p[j]
                    }
            },
{
    let a = old(x)@;
    let b = final(x)@;
    let p = choose|p: Seq<int>|
        {
            &&& median::is_rearrangement(p, a.len() as int)
            &&& #[trigger] median::picks(a, p, b)
            &&& order::is_ordered(a) ==> median::sorts(a, p)
        };
    assert(p.len() == a.len());
    if order::is_ordered(a) {
        assert forall|i: int, j: int| 0 <= i < j < p.len() implies {
            &&& !order::less(a[#[trigger] p[j]], a[#[trigger] p[i]])
            &&& !order::less(a[p[i]], a[p[j]]) ==> p[i] < p[j]
        } by {
            assert(median::belongs_before(a, p[i], p[j]));
        }
    }
}

/// No value up to the middle is greater than the median, and none from there on is less.
pub proof fn median_parts_the_values<T: PartialOrd + Copy>(x: &mut [T], m: T, i: int)
    requires
        old(x)@.len() > 0,
        order::is_ordered(old(x)@),
        call_ensures(median::median::<T>, (x,), m),
        0 <= i < old(x)@.len(),
    ensures
        2 * i <= old(x)@.len() ==> !order::less(m, final(x)@[i]),
        2 * i >= old(x)@.len() - 1 ==> !order::less(final(x)@[i], m),
{
    let a = old(x)@;
    let b = final(x)@;
    let mid = a.len() as int / 2;
    median::median_is_in_the_middle(a, b, i);
    if 2 * i >= a.len() - 1 && i < mid {
        assert(false);
    }
}

/// Of values that are ordered by their comparison, no value compares as less than one before it
/// once the median has been taken.
pub proof fn median_leaves_no_descent<T: PartialOrd + Copy>(x: &mut [T], m: T, i: int, j: int)
    requires
        old(x)@.len() > 0,
        order::is_ordered(old(x)@),
        call_ensures(median::median::<T>, (x,), m),
        0 <= i < j < old(x)@.len(),
    ensures
        final(x)@[j].partial_cmp_spec(&final(x)@[i]) != Some(Ordering::Less),
        final(x)@[i].partial_cmp_spec(&final(x)@[j]) != Some(Ordering::Greater),
{
    lemma_no_descent(old(x)@, final(x)@, i, j);
}

proof fn lemma_no_descent<T: PartialOrd>(a: Seq<T>, b: Seq<T>, i: int, j: int)
    requires
        order::is_ordered(a),
        median::stably_sorted(a, b),
        0 <= i < j < a.len(),
    ensures
        !order::less(b[j], b[i]),
        !order::more(b[i], b[j]),
{
    let p = choose|p: Seq<int>|
        {
            &&& median::is_rearrangement(p, a.len() as int)
            &&& #[trigger] median::picks(a, p, b)
            &&& order::is_ordered(a) ==> median::sorts(a, p)
        };
    assert(median::belongs_before(a, p[i], p[j]));
    assert(b[i] == a[p[i]] && b[j] == a[p[j]]);
    assert(order::more(a[p[i]], a[p[j]]) <==> order::less(a[p[j]], a[p[i]]));
}

proof fn lemma_integers_are_ordered(x: Seq<i64>)
    ensures
        order::is_ordered(x),
{
}

/// Integers are left in ascending order by the median.
pub proof fn median_sorts_integers(x: &mut [i64], m: i64, i: int, j: int)
    requires
        old(x)@.len() > 0,
        call_ensures(median::median::<i64>, (x,), m),
        0 <= i < j < old(x)@.len(),
    ensures
        final(x)@.len() == old(x)@.len(),
        final(x)@[i] <= final(x)@[j],
        m == final(x)@[old(x)@.len() as int / 2],
{
    lemma_integers_are_ordered(old(x)@);
    lemma_no_descent(old(x)@, final(x)@, i, j);
}

/// Whether a value is less is what its comparison says.
pub proof fn less_is_what_the_comparison_says<T: PartialOrd>(a: &T, b: &T, r: bool)
    requires
        T::obeys_partial_cmp_spec(),
        call_ensures(order::is_less::<T>, (a, b), r),
    ensures
        r <==> a.partial_cmp_spec(b) == Some(Ordering::Less),
{
}

} // verus!
