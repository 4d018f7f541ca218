//! The arithmetic that the signal processing in this crate is written over.
//!
//! Nothing here fixes a number format. A type becomes usable as a sample by
//! implementing [`Sample`], whose operations promise nothing: the contracts of
//! this crate say which operations are applied to which values and in which
//! order, and they hold for every implementation, rounding included. A relation
//! such as `multiplies(a, b, r)` reads "`r` is a value that `a.times(b)` returns".
use vstd::prelude::*;

verus! {

/// A real number of some finite precision, with the operations that the filters,
/// transforms and statistics of this crate apply to it.
pub trait Sample: Copy {
    /// The number zero.
    fn zero() -> Self;

    /// The number one.
    fn one() -> Self;

    /// The value nearest to `digits` divided by ten to the power `places`.
    fn decimal(digits: i64, places: u32) -> Self;

    /// The value nearest to a count.
    fn from_count(n: usize) -> Self;

    /// The value nearest to an integer.
    fn from_int(n: i64) -> Self;

    /// The ratio of a circle's circumference to its diameter.
    fn pi() -> Self;

    /// The least finite value.
    fn lowest() -> Self;

    /// The greatest finite value.
    fn highest() -> Self;

    /// The sum of two values.
    fn plus(self, other: Self) -> Self;

    /// The difference of two values.
    fn minus(self, other: Self) -> Self;

    /// The product of two values.
    fn times(self, other: Self) -> Self;

    /// The quotient of two values.
    fn over(self, other: Self) -> Self;

    /// The magnitude of a value.
    fn magnitude(self) -> Self;

    /// The square root.
    fn square_root(self) -> Self;

    /// The sine of an angle in radians.
    fn sine(self) -> Self;

    /// The cosine of an angle in radians.
    fn cosine(self) -> Self;

    /// The exponential function.
    fn exponential(self) -> Self;

    /// The natural logarithm of one more than the value.
    fn log_one_plus(self) -> Self;

    /// The logarithm to base ten.
    fn log_ten(self) -> Self;

    /// The length of the hypotenuse over two legs.
    fn hypotenuse(self, other: Self) -> Self;

    /// The value times itself.
    fn squared(self) -> Self;

    /// The lesser of two values.
    fn lesser(self, other: Self) -> Self;

    /// The greater of two values.
    fn greater(self, other: Self) -> Self;

    /// The value held between two bounds.
    fn held_between(self, low: Self, high: Self) -> Self;

    /// Whether the value stands for no number at all.
    fn is_undefined(self) -> bool;

    /// Whether this value exceeds the other.
    fn above(self, other: Self) -> bool;

    /// The nearest count, ties going up.
    fn nearest_count(self) -> usize;

    /// The nearest 16-bit integer, ties going away from zero.
    fn nearest_short(self) -> i16;
}

/// A sample type with more precision than `S`, whose values can be cut down to it.
pub trait Wider<S: Sample>: Sample {
    /// The value of the narrower type nearest to this one.
    fn narrowed(self) -> S;
}

/// Something that a gain of type `S` can be applied to.
pub trait Scalable<S: Sample>: Copy {
    /// This value with the gain applied.
    fn scaled(self, gain: S) -> Self;
}

impl<S: Sample> Scalable<S> for S {
    fn scaled(self, gain: S) -> (r: S)
        ensures
            multiplies(self, gain, r),
    {
        self.times(gain)
    }
}

/// `r` is a value of `S::zero()`.
#[verifier::inline]
pub open spec fn is_zero<S: Sample>(r: S) -> bool {
    call_ensures(S::zero, (), r)
}

/// `r` is a value of `S::one()`.
#[verifier::inline]
pub open spec fn is_one<S: Sample>(r: S) -> bool {
    call_ensures(S::one, (), r)
}

/// `r` is a value of `S::pi()`.
#[verifier::inline]
pub open spec fn is_pi<S: Sample>(r: S) -> bool {
    call_ensures(S::pi, (), r)
}

/// `r` stands for the decimal number `digits / 10^places`.
#[verifier::inline]
pub open spec fn is_decimal<S: Sample>(digits: i64, places: u32, r: S) -> bool {
    call_ensures(S::decimal, (digits, places), r)
}

/// `r` stands for the count `n`.
#[verifier::inline]
pub open spec fn is_count<S: Sample>(n: usize, r: S) -> bool {
    call_ensures(S::from_count, (n,), r)
}

/// `r` stands for the integer `n`.
#[verifier::inline]
pub open spec fn is_int<S: Sample>(n: i64, r: S) -> bool {
    call_ensures(S::from_int, (n,), r)
}

/// `r` is a value of `a + b`.
#[verifier::inline]
pub open spec fn adds<S: Sample>(a: S, b: S, r: S) -> bool {
    call_ensures(S::plus, (a, b), r)
}

/// `r` is a value of `a - b`.
#[verifier::inline]
pub open spec fn subtracts<S: Sample>(a: S, b: S, r: S) -> bool {
    call_ensures(S::minus, (a, b), r)
}

/// `r` is a value of `a * b`.
#[verifier::inline]
pub open spec fn multiplies<S: Sample>(a: S, b: S, r: S) -> bool {
    call_ensures(S::times, (a, b), r)
}

/// `r` is a value of `a / b`.
#[verifier::inline]
pub open spec fn divides<S: Sample>(a: S, b: S, r: S) -> bool {
    call_ensures(S::over, (a, b), r)
}

/// `r` is a square root of `a`.
#[verifier::inline]
pub open spec fn roots<S: Sample>(a: S, r: S) -> bool {
    call_ensures(S::square_root, (a,), r)
}

/// `v` holds `n` values of `S::zero()`.
pub open spec fn silence<S: Sample>(v: Seq<S>, n: int) -> bool {
    &&& v.len() == n
    &&& forall|i: int| 0 <= i < n ==> is_zero(#[trigger] v[i])
}

/// The operations that signals and windows are computed with have one value each: asked again,
/// they give the same.
pub open spec fn has_one_value<S: Sample>() -> bool {
    &&& forall|r: S, q: S|
        #[trigger] call_ensures(S::zero, (), r) && #[trigger] call_ensures(S::zero, (), q) ==> r == q
    &&& forall|r: S, q: S|
        #[trigger] call_ensures(S::one, (), r) && #[trigger] call_ensures(S::one, (), q) ==> r == q
    &&& forall|r: S, q: S|
        #[trigger] call_ensures(S::pi, (), r) && #[trigger] call_ensures(S::pi, (), q) ==> r == q
    &&& forall|digits: i64, places: u32, r: S, q: S|
        #[trigger] call_ensures(S::decimal, (digits, places), r) && #[trigger] call_ensures(
            S::decimal,
            (digits, places),
            q,
        ) ==> r == q
    &&& forall|n: usize, r: S, q: S|
        #[trigger] call_ensures(S::from_count, (n,), r) && #[trigger] call_ensures(
            S::from_count,
            (n,),
            q,
        ) ==> r == q
    &&& forall|a: S, b: S, r: S, q: S|
        #[trigger] call_ensures(S::plus, (a, b), r) && #[trigger] call_ensures(S::plus, (a, b), q)
            ==> r == q
    &&& forall|a: S, b: S, r: S, q: S|
        #[trigger] call_ensures(S::minus, (a, b), r) && #[trigger] call_ensures(S::minus, (a, b), q)
            ==> r == q
    &&& forall|a: S, b: S, r: S, q: S|
        #[trigger] call_ensures(S::times, (a, b), r) && #[trigger] call_ensures(S::times, (a, b), q)
            ==> r == q
    &&& forall|a: S, b: S, r: S, q: S|
        #[trigger] call_ensures(S::over, (a, b), r) && #[trigger] call_ensures(S::over, (a, b), q)
            ==> r == q
    &&& forall|a: S, r: S, q: S|
        #[trigger] call_ensures(S::square_root, (a,), r) && #[trigger] call_ensures(S::square_root, (a,), q) ==> r == q
    &&& forall|a: S, r: S, q: S|
        #[trigger] call_ensures(S::sine, (a,), r) && #[trigger] call_ensures(S::sine, (a,), q) ==> r == q
    &&& forall|a: S, r: S, q: S|
        #[trigger] call_ensures(S::cosine, (a,), r) && #[trigger] call_ensures(S::cosine, (a,), q) ==> r == q
    &&& forall|a: S, r: S, q: S|
        #[trigger] call_ensures(S::exponential, (a,), r) && #[trigger] call_ensures(S::exponential, (a,), q) ==> r == q
    &&& forall|a: S, r: S, q: S|
        #[trigger] call_ensures(S::log_one_plus, (a,), r) && #[trigger] call_ensures(S::log_one_plus, (a,), q) ==> r == q
    &&& forall|a: S, r: usize, q: usize|
        #[trigger] call_ensures(S::nearest_count, (a,), r) && #[trigger] call_ensures(S::nearest_count, (a,), q) ==> r == q
}

/// Cutting a value down has one outcome.
pub open spec fn narrows_to_one_value<S: Sample, W: Wider<S>>() -> bool {
    forall|a: W, r: S, q: S|
        #[trigger] call_ensures(W::narrowed, (a,), r) && #[trigger] call_ensures(
            W::narrowed,
            (a,),
            q,
        ) ==> r == q
}

/// `n` zeros.
pub fn zeros<S: Sample>(n: usize) -> (v: Vec<S>)
    ensures
        silence(v@, n as int),
{
    let mut v: Vec<S> = Vec::new();
    let mut i: usize = 0;
    while i < n
        invariant
            i <= n,
            silence(v@, i as int),
        decreases n - i,
    {
        v.push(S::zero());
        i += 1;
    }
    v
}

/// Multiplies every value of `xs` by `k`, in place.
pub fn scale_inplace<S: Sample>(xs: &mut [S], k: S)
    ensures
        final(xs)@.len() == old(xs)@.len(),
        forall|i: int|
            0 <= i < old(xs)@.len() ==> multiplies(old(xs)@[i], k, #[trigger] final(xs)@[i]),
{
    let n: usize = xs.len();
    let mut i: usize = 0;
    while i < n
        invariant
            i <= n,
            n == xs@.len(),
            n == old(xs)@.len(),
            forall|j: int| 0 <= j < i ==> multiplies(old(xs)@[j], k, #[trigger] xs@[j]),
            forall|j: int| i <= j < n ==> xs@[j] == old(xs)@[j],
        decreases n - i,
    {
        xs[i] = xs[i].times(k);
        i += 1;
    }
}

/// Multiplies each value of `xs` by the value of `ws` at the same place, in place.
pub fn mul_inplace<S: Sample>(xs: &mut [S], ws: &[S])
    requires
        old(xs)@.len() == ws@.len(),
    ensures
        final(xs)@.len() == old(xs)@.len(),
        forall|i: int|
            0 <= i < old(xs)@.len() ==> multiplies(old(xs)@[i], ws@[i], #[trigger] final(xs)@[i]),
{
    let n: usize = xs.len();
    let mut i: usize = 0;
    while i < n
        invariant
            i <= n,
            n == xs@.len(),
            n == old(xs)@.len(),
            n == ws@.len(),
            forall|j: int| 0 <= j < i ==> multiplies(old(xs)@[j], ws@[j], #[trigger] xs@[j]),
            forall|j: int| i <= j < n ==> xs@[j] == old(xs)@[j],
        decreases n - i,
    {
        xs[i] = xs[i].times(ws[i]);
        i += 1;
    }
}

} // verus!
