//! The middle value of a run of values, by sorting them.
use vstd::prelude::*;

use crate::order;

verus! {

/// `p` rearranges `n` places: it names each of them once.
pub open spec fn is_rearrangement(p: Seq<int>, n: int) -> bool {
    &&& p.len() == n
    &&& forall|i: int| 0 <= i < n ==> 0 <= #[trigger] p[i] < n
    &&& forall|i: int, j: int| 0 <= i < j < n ==> #[trigger] p[i] != #[trigger] p[j]
}

/// The value at place `i` of `x` belongs before the value at place `j`: it is less, or it is not
/// greater and comes first.
pub open spec fn belongs_before<T: PartialOrd>(x: Seq<T>, i: int, j: int) -> bool {
    order::less(x[i], x[j]) || (!order::less(x[j], x[i]) && i < j)
}

/// `p` names the places of `x` in the order in which their values belong.
pub open spec fn sorts<T: PartialOrd>(x: Seq<T>, p: Seq<int>) -> bool {
    forall|i: int, j: int|
        0 <= i < j < p.len() ==> belongs_before(x, #[trigger] p[i], #[trigger] p[j])
}

/// `y` holds the values of `x` at the places that `p` names.
pub open spec fn picks<T>(x: Seq<T>, p: Seq<int>, y: Seq<T>) -> bool {
    &&& y.len() == p.len()
    &&& forall|i: int| 0 <= i < p.len() ==> #[trigger] y[i] == x[p[i]]
}

/// `y` is `x` rearranged, and, if `x` is ordered by its comparison, sorted so that equal values
/// keep their order.
pub open spec fn stably_sorted<T: PartialOrd>(x: Seq<T>, y: Seq<T>) -> bool {
    exists|p: Seq<int>|
        {
            &&& is_rearrangement(p, x.len() as int)
            &&& #[trigger] picks(x, p, y)
            &&& order::is_ordered(x) ==> sorts(x, p)
        }
}

/// Belonging before carries over from place to place.
proof fn lemma_belongs_before_transitive<T: PartialOrd>(x: Seq<T>, i: int, j: int, k: int)
    requires
        order::is_ordered(x),
        0 <= i < x.len(),
        0 <= j < x.len(),
        0 <= k < x.len(),
        belongs_before(x, i, j),
        belongs_before(x, j, k),
    ensures
        belongs_before(x, i, k),
{
    let a = x[i];
    let b = x[j];
    let c = x[k];
    // Being less combines with not being greater on either side.
    assert(!order::less(c, b) && !order::less(a, c) ==> !order::less(a, b));
    assert(!order::less(a, c) && !order::less(b, a) ==> !order::less(b, c));
    assert(!order::less(b, a) && !order::less(c, b) ==> !order::less(c, a));
}

/// The places from `lo` up to `hi`, in the order in which their values belong.
spec fn sorted_run<T: PartialOrd>(x: Seq<T>, lo: int, hi: int, r: Seq<usize>) -> bool {
    &&& r.len() == hi - lo
    &&& forall|i: int| 0 <= i < r.len() ==> lo <= #[trigger] r[i] < hi
    &&& forall|i: int, j: int| 0 <= i < j < r.len() ==> #[trigger] r[i] != #[trigger] r[j]
    &&& order::is_ordered(x) ==> forall|i: int, j: int|
        0 <= i < j < r.len() ==> belongs_before(x, #[trigger] r[i] as int, #[trigger] r[j] as int)
}

/// Sorts the places from `lo` up to `hi` by their values.
fn sort_run<T: PartialOrd + Copy>(x: &[T], lo: usize, hi: usize) -> (r: Vec<usize>)
    requires
        lo < hi <= x@.len(),
    ensures
        sorted_run(x@, lo as int, hi as int, r@),
    decreases hi - lo,
{
    if hi - lo == 1 {
        let mut r: Vec<usize> = Vec::new();
        r.push(lo);
        return r;
    }
    let mid: usize = lo + (hi - lo) / 2;
    let left: Vec<usize> = sort_run(x, lo, mid);
    let right: Vec<usize> = sort_run(x, mid, hi);
    merge(x, lo, mid, hi, &left, &right)
}

/// Merges two sorted runs of places that lie next to each other.
fn merge<T: PartialOrd + Copy>(
    x: &[T],
    lo: usize,
    mid: usize,
    hi: usize,
    left: &Vec<usize>,
    right: &Vec<usize>,
) -> (r: Vec<usize>)
    requires
        lo <= mid <= hi <= x@.len(),
        sorted_run(x@, lo as int, mid as int, left@),
        sorted_run(x@, mid as int, hi as int, right@),
    ensures
        sorted_run(x@, lo as int, hi as int, r@),
{
    let mut r: Vec<usize> = Vec::new();
    let mut i: usize = 0;
    let mut j: usize = 0;
    while i < left.len() || j < right.len()
        invariant
            lo <= mid <= hi <= x@.len(),
            sorted_run(x@, lo as int, mid as int, left@),
            sorted_run(x@, mid as int, hi as int, right@),
            i <= left@.len(),
            j <= right@.len(),
            r@.len() == i + j,
            forall|k: int| 0 <= k < r@.len() ==> lo <= #[trigger] r@[k] < hi,
            forall|k: int, l: int| 0 <= k < l < r@.len() ==> #[trigger] r@[k] != #[trigger] r@[l],
            forall|k: int, l: int|
                0 <= k < r@.len() && i <= l < left@.len() ==> #[trigger] r@[k]
                    != #[trigger] left@[l],
            forall|k: int, l: int|
                0 <= k < r@.len() && j <= l < right@.len() ==> #[trigger] r@[k]
                    != #[trigger] right@[l],
            order::is_ordered(x@) ==> {
                &&& forall|k: int, l: int|
                    0 <= k < l < r@.len() ==> belongs_before(
                        x@,
                        #[trigger] r@[k] as int,
                        #[trigger] r@[l] as int,
                    )
                &&& forall|k: int, l: int|
                    0 <= k < r@.len() && i <= l < left@.len() ==> belongs_before(
                        x@,
                        #[trigger] r@[k] as int,
                        #[trigger] left@[l] as int,
                    )
                &&& forall|k: int, l: int|
                    0 <= k < r@.len() && j <= l < right@.len() ==> belongs_before(
                        x@,
                        #[trigger] r@[k] as int,
                        #[trigger] right@[l] as int,
                    )
            },
        decreases left@.len() + right@.len() - i - j,
    {
        let from_right: bool = i == left.len() || (j < right.len() && order::is_less(
            &x[right[j]],
            &x[left[i]],
        ));
        if from_right {
            let next: usize = right[j];
            proof {
                if order::is_ordered(x@) {
                    assert forall|l: int| i <= l < left@.len() implies belongs_before(
                        x@,
                        next as int,
                        #[trigger] left@[l] as int,
                    ) by {
                        if l > i {
                            lemma_belongs_before_transitive(
                                x@,
                                next as int,
                                left@[i as int] as int,
                                left@[l] as int,
                            );
                        }
                    }
                }
            }
            r.push(next);
            j += 1;
        } else {
            let next: usize = left[i];
            proof {
                if order::is_ordered(x@) {
                    assert forall|l: int| j <= l < right@.len() implies belongs_before(
                        x@,
                        next as int,
                        #[trigger] right@[l] as int,
                    ) by {
                        assert(belongs_before(x@, next as int, right@[j as int] as int));
                        if l > j {
                            lemma_belongs_before_transitive(
                                x@,
                                next as int,
                                right@[j as int] as int,
                                right@[l] as int,
                            );
                        }
                    }
                }
            }
            r.push(next);
            i += 1;
        }
    }
    r
}

/// Sorts the values, equal ones keeping their order, and returns the one in the middle; of an
/// even number of values, the upper one of the two in the middle.
pub fn median<T: PartialOrd + Copy>(x: &mut [T]) -> (m: T)
    requires
        old(x)@.len() > 0,
    ensures
        stably_sorted(old(x)@, final(x)@),
        m == final(x)@[old(x)@.len() as int / 2],
{
    let n: usize = x.len();
    if n == 1 {
        proof {
            let p = seq![0int];
            assert(picks(x@, p, x@));
        }
        return x[0];
    }
    let sorted: Vec<usize> = sort_run(x, 0, n);
    let mut y: Vec<T> = Vec::new();
    let mut i: usize = 0;
    while i < n
        invariant
            i <= n,
            n == x@.len(),
            n == sorted@.len(),
            sorted_run(x@, 0, n as int, sorted@),
            y@.len() == i,
            forall|j: int| 0 <= j < i ==> #[trigger] y@[j] == x@[sorted@[j] as int],
        decreases n - i,
    {
        y.push(x[sorted[i]]);
        i += 1;
    }
    let ghost before = x@;
    let mut k: usize = 0;
    while k < n
        invariant
            k <= n,
            n == x@.len(),
            n == y@.len(),
            forall|j: int| 0 <= j < k ==> #[trigger] x@[j] == y@[j],
        decreases n - k,
    {
        x[k] = y[k];
        k += 1;
    }
    proof {
        let p = Seq::new(n as nat, |j: int| sorted@[j] as int);
        assert(x@ == y@);
        assert(picks(before, p, x@));
        assert(is_rearrangement(p, n as int));
    }
    x[n / 2]
}

/// The median is in the middle: of values that are ordered by their comparison, none up to the
/// middle of the sorted run is greater, and none from there on is less.
pub proof fn median_is_in_the_middle<T: PartialOrd>(x: Seq<T>, y: Seq<T>, i: int)
    requires
        x.len() > 0,
        order::is_ordered(x),
        stably_sorted(x, y),
        0 <= i < x.len(),
    ensures
        i <= x.len() as int / 2 ==> !order::less(y[x.len() as int / 2], y[i]),
        x.len() as int / 2 <= i ==> !order::less(y[i], y[x.len() as int / 2]),
{
    let p = choose|p: Seq<int>|
        {
            &&& is_rearrangement(p, x.len() as int)
            &&& #[trigger] picks(x, p, y)
            &&& order::is_ordered(x) ==> sorts(x, p)
        };
    let mid = x.len() as int / 2;
    assert(y[i] == x[p[i]] && y[mid] == x[p[mid]]);
    if i < mid {
        assert(belongs_before(x, p[i], p[mid]));
    } else if mid < i {
        assert(belongs_before(x, p[mid], p[i]));
    }
}

/// A rearrangement names every place.
proof fn lemma_every_place_is_named(p: Seq<int>, n: int, place: int) -> (i: int)
    requires
        is_rearrangement(p, n),
        0 <= place < n,
    ensures
        0 <= i < n,
        p[i] == place,
{
    let named = p.to_set();
    let all = vstd::set_lib::set_int_range(0, n);
    vstd::set_lib::lemma_int_range(0, n);
    vstd::seq_lib::seq_to_set_is_finite(p);
    assert(p.no_duplicates());
    p.unique_seq_to_set();
    assert(named.subset_of(all));
    vstd::set_lib::lemma_subset_equality(named, all);
    assert(named.contains(place));
    choose|i: int| 0 <= i < p.len() && p[i] == place
}

/// There is only one way to sort: two rearrangements that sort the same ordered values name the
/// same places up to `n`.
proof fn lemma_sorts_alike<T: PartialOrd>(x: Seq<T>, p: Seq<int>, q: Seq<int>, n: int)
    requires
        order::is_ordered(x),
        is_rearrangement(p, x.len() as int),
        is_rearrangement(q, x.len() as int),
        sorts(x, p),
        sorts(x, q),
        0 <= n <= x.len(),
    ensures
        forall|i: int| 0 <= i < n ==> #[trigger] p[i] == q[i],
    decreases n,
{
    if n > 0 {
        lemma_sorts_alike(x, p, q, n - 1);
        let i = n - 1;
        if p[i] != q[i] {
            let k = lemma_every_place_is_named(q, x.len() as int, p[i]);
            let l = lemma_every_place_is_named(p, x.len() as int, q[i]);
            assert(k >= i) by {
                if k < i {
                    assert(p[k] == q[k]);
                }
            }
            assert(l >= i) by {
                if l < i {
                    assert(p[l] == q[l]);
                }
            }
            assert(belongs_before(x, q[i], q[k]));
            assert(belongs_before(x, p[i], p[l]));
            assert(!(order::less(x[p[i]], x[q[i]]) && order::less(x[q[i]], x[p[i]])));
        }
    }
}

/// Sorting has one outcome only: of values that are ordered by their comparison, any two results
/// of sorting are the same.
pub proof fn sorting_has_one_outcome<T: PartialOrd>(x: Seq<T>, y: Seq<T>, z: Seq<T>)
    requires
        order::is_ordered(x),
        stably_sorted(x, y),
        stably_sorted(x, z),
    ensures
        y == z,
{
    let p = choose|p: Seq<int>|
        {
            &&& is_rearrangement(p, x.len() as int)
            &&& #[trigger] picks(x, p, y)
            &&& order::is_ordered(x) ==> sorts(x, p)
        };
    let q = choose|q: Seq<int>|
        {
            &&& is_rearrangement(q, x.len() as int)
            &&& #[trigger] picks(x, q, z)
            &&& order::is_ordered(x) ==> sorts(x, q)
        };
    lemma_sorts_alike(x, p, q, x.len() as int);
    assert(y =~= z);
}

} // verus!
