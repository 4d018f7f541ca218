//! Samples as exact numbers.
use vstd::prelude::*;

use crate::sample::Sample;

verus! {

/// How samples stand for real numbers, and the functions that their operations compute.
#[verifier::reject_recursive_types(S)]
pub struct Numbers<S> {
    /// The number that a sample stands for.
    pub value: spec_fn(S) -> real,
    /// The ratio of a circle's circumference to its diameter.
    pub pi: real,
    /// The sine of an angle.
    pub sin: spec_fn(real) -> real,
    /// The cosine of an angle.
    pub cos: spec_fn(real) -> real,
    /// The exponential function.
    pub exp: spec_fn(real) -> real,
    /// The natural logarithm of one more than a number.
    pub ln_1p: spec_fn(real) -> real,
    /// The logarithm to base ten.
    pub log_10: spec_fn(real) -> real,
}

/// Ten to the power `n`.
pub open spec fn ten_to(n: nat) -> real
    decreases n,
{
    if n == 0 {
        1real
    } else {
        10real * ten_to((n - 1) as nat)
    }
}

/// The greater of two numbers.
pub open spec fn max(a: real, b: real) -> real {
    if a >= b {
        a
    } else {
        b
    }
}

/// The lesser of two numbers.
pub open spec fn min(a: real, b: real) -> real {
    if a <= b {
        a
    } else {
        b
    }
}

/// The magnitude of a number.
pub open spec fn abs(a: real) -> real {
    if a >= 0real {
        a
    } else {
        -a
    }
}

/// A number times itself.
pub open spec fn square(a: real) -> real {
    a * a
}

/// `f(lo) + ... + f(hi - 1)`.
pub open spec fn total(f: spec_fn(int) -> real, lo: int, hi: int) -> real
    decreases hi - lo,
{
    if hi <= lo {
        0real
    } else {
        total(f, lo, hi - 1) + f(hi - 1)
    }
}

impl<S: Sample> Numbers<S> {
    /// The four operations and the constants are those of arithmetic.
    pub open spec fn calculate(self) -> bool {
        &&& forall|r: S| #[trigger] call_ensures(S::zero, (), r) ==> (self.value)(r) == 0real
        &&& forall|r: S| #[trigger] call_ensures(S::one, (), r) ==> (self.value)(r) == 1real
        &&& forall|digits: i64, places: u32, r: S|
            #[trigger] call_ensures(S::decimal, (digits, places), r) ==> (self.value)(r) * ten_to(
                places as nat,
            ) == digits as real
        &&& forall|n: usize, r: S|
            #[trigger] call_ensures(S::from_count, (n,), r) ==> (self.value)(r) == n as real
        &&& forall|n: i64, r: S|
            #[trigger] call_ensures(S::from_int, (n,), r) ==> (self.value)(r) == n as real
        &&& forall|a: S, b: S, r: S|
            #[trigger] call_ensures(S::plus, (a, b), r) ==> (self.value)(r) == (self.value)(a) + (
            self.value)(b)
        &&& forall|a: S, b: S, r: S|
            #[trigger] call_ensures(S::minus, (a, b), r) ==> (self.value)(r) == (self.value)(a) - (
            self.value)(b)
        &&& forall|a: S, b: S, r: S|
            #[trigger] call_ensures(S::times, (a, b), r) ==> (self.value)(r) == (self.value)(a) * (
            self.value)(b)
        &&& forall|a: S, b: S, r: S|
            #[trigger] call_ensures(S::over, (a, b), r) && (self.value)(b) != 0real
                ==> (self.value)(r) * (self.value)(b) == (self.value)(a)
    }

    /// Comparisons are those of numbers.
    pub open spec fn compare(self) -> bool {
        &&& forall|a: S, r: S|
            #[trigger] call_ensures(S::magnitude, (a,), r) ==> (self.value)(r) == abs(
                (self.value)(a),
            )
        &&& forall|a: S, b: S, r: S|
            #[trigger] call_ensures(S::lesser, (a, b), r) ==> (self.value)(r) == min(
                (self.value)(a),
                (self.value)(b),
            )
        &&& forall|a: S, b: S, r: S|
            #[trigger] call_ensures(S::greater, (a, b), r) ==> (self.value)(r) == max(
                (self.value)(a),
                (self.value)(b),
            )
        &&& forall|a: S, low: S, high: S, r: S|
            #[trigger] call_ensures(S::held_between, (a, low, high), r) ==> (self.value)(r) == max(
                (self.value)(low),
                min((self.value)(a), (self.value)(high)),
            )
        &&& forall|a: S, b: S, r: bool|
            #[trigger] call_ensures(S::above, (a, b), r) ==> r == ((self.value)(a) > (self.value)(
                b,
            ))
    }

    /// Every sample stands for a number.
    pub open spec fn are_defined(self) -> bool {
        forall|a: S, r: bool| #[trigger] call_ensures(S::is_undefined, (a,), r) ==> !r
    }

    /// No sample lies below the lowest or above the highest.
    pub open spec fn stay_in_range(self) -> bool {
        &&& forall|a: S, r: S|
            #[trigger] call_ensures(S::lowest, (), r) ==> (self.value)(r) <= #[trigger] (
            self.value)(a)
        &&& forall|a: S, r: S|
            #[trigger] call_ensures(S::highest, (), r) ==> #[trigger] (self.value)(a) <= (
            self.value)(r)
    }

    /// Squares, roots and lengths are those of numbers.
    pub open spec fn take_roots(self) -> bool {
        &&& forall|a: S, r: S|
            #[trigger] call_ensures(S::squared, (a,), r) ==> (self.value)(r) == (self.value)(a) * (
            self.value)(a)
        &&& forall|a: S, r: S|
            #[trigger] call_ensures(S::square_root, (a,), r) && (self.value)(a) >= 0real
                ==> (self.value)(r) >= 0real && (self.value)(r) * (self.value)(r) == (self.value)(a)
        &&& forall|a: S, b: S, r: S|
            #[trigger] call_ensures(S::hypotenuse, (a, b), r) ==> {
                &&& (self.value)(r) >= 0real
                &&& (self.value)(r) * (self.value)(r) == (self.value)(a) * (self.value)(a) + (
                self.value)(b) * (self.value)(b)
            }
    }

    /// The other functions are computed as named.
    pub open spec fn compute_functions(self) -> bool {
        &&& forall|r: S| #[trigger] call_ensures(S::pi, (), r) ==> (self.value)(r) == self.pi
        &&& forall|a: S, r: S|
            #[trigger] call_ensures(S::sine, (a,), r) ==> (self.value)(r) == (self.sin)(
                (self.value)(a),
            )
        &&& forall|a: S, r: S|
            #[trigger] call_ensures(S::cosine, (a,), r) ==> (self.value)(r) == (self.cos)(
                (self.value)(a),
            )
        &&& forall|a: S, r: S|
            #[trigger] call_ensures(S::exponential, (a,), r) ==> (self.value)(r) == (self.exp)(
                (self.value)(a),
            )
        &&& forall|a: S, r: S|
            #[trigger] call_ensures(S::log_one_plus, (a,), r) ==> (self.value)(r) == (self.ln_1p)(
                (self.value)(a),
            )
        &&& forall|a: S, r: S|
            #[trigger] call_ensures(S::log_ten, (a,), r) ==> (self.value)(r) == (self.log_10)(
                (self.value)(a),
            )
    }

    /// Rounding goes to the nearest integer, as far as it can be held.
    pub open spec fn round(self) -> bool {
        &&& forall|a: S, r: usize|
            #[trigger] call_ensures(S::nearest_count, (a,), r) && 0real <= (self.value)(a)
                <= usize::MAX as real ==> -1real <= 2real * ((self.value)(a) - r as real) < 1real
        &&& forall|a: S, r: i16|
            #[trigger] call_ensures(S::nearest_short, (a,), r) && -32768real <= (self.value)(a)
                <= 32767real ==> -1real <= 2real * ((self.value)(a) - r as real) <= 1real
    }

    /// Sine and cosine are those of a right triangle, a quarter turn apart.
    pub open spec fn turn_right(self) -> bool {
        &&& forall|x: real| #[trigger] (self.sin)(x) * (self.sin)(x) + (self.cos)(x) * (self.cos)(x)
            == 1real
        &&& forall|x: real, y: real|
            y == x + self.pi / 2real ==> #[trigger] (self.sin)(y) == #[trigger] (self.cos)(x)
        &&& forall|x: real, y: real|
            y == self.pi / 2real - x ==> #[trigger] (self.sin)(y) == #[trigger] (self.cos)(x)
        &&& forall|x: real, y: real|
            y == x + self.pi ==> #[trigger] (self.cos)(y) == -#[trigger] (self.cos)(x)
    }
}

/// Sums of the same terms are the same.
pub proof fn lemma_total_alike(f: spec_fn(int) -> real, g: spec_fn(int) -> real, lo: int, hi: int)
    requires
        forall|i: int| lo <= i < hi ==> #[trigger] f(i) == g(i),
    ensures
        total(f, lo, hi) == total(g, lo, hi),
    decreases hi - lo,
{
    if lo < hi {
        lemma_total_alike(f, g, lo, hi - 1);
    }
}

} // verus!
