//! What it means for one value to come before another.
use core::cmp::Ordering;
use vstd::prelude::*;
use vstd::std_specs::cmp::PartialOrdSpec;

verus! {

/// The comparison of `T` does what its specification says.
pub open spec fn compares_as_specified<T: PartialOrd>() -> bool {
    T::obeys_partial_cmp_spec()
}

/// `a` compares as less than `b`.
pub open spec fn less<T: PartialOrd>(a: T, b: T) -> bool {
    a.partial_cmp_spec(&b) == Some(Ordering::Less)
}

/// `a` compares as greater than `b`.
pub open spec fn more<T: PartialOrd>(a: T, b: T) -> bool {
    a.partial_cmp_spec(&b) == Some(Ordering::Greater)
}

/// The values are ordered by their comparison: being greater is being less the other way round,
/// no two values are each less than the other, and what is not less carries over from value to
/// value. Values that do not compare at all count as equal.
pub open spec fn is_ordered<T: PartialOrd>(x: Seq<T>) -> bool {
    &&& compares_as_specified::<T>()
    &&& forall|i: int, j: int|
        #![trigger x[i], x[j]]
        0 <= i < x.len() && 0 <= j < x.len() ==> {
            &&& more(x[i], x[j]) <==> less(x[j], x[i])
            &&& !(less(x[i], x[j]) && less(x[j], x[i]))
        }
    &&& forall|i: int, j: int, k: int|
        #![trigger x[i], x[j], x[k]]
        0 <= i < x.len() && 0 <= j < x.len() && 0 <= k < x.len() && !less(x[j], x[i]) && !less(
            x[k],
            x[j],
        ) ==> !less(x[k], x[i])
}

/// Whether `a` compares as less than `b`.
pub fn is_less<T: PartialOrd>(a: &T, b: &T) -> (r: bool)
    ensures
        compares_as_specified::<T>() ==> r == less(*a, *b),
{
    match a.partial_cmp(b) {
        Some(Ordering::Less) => true,
        _ => false,
    }
}

} // verus!
