//! What single bins are measured by and multiplied with.
use vstd::prelude::*;

use crate::complex::Complex;
use crate::laws::numbers::Numbers;
use crate::sample::{Sample, Scalable};

verus! {

/// The square of a bin's magnitude is the sum of the squares of its parts.
pub proof fn magnitude_is_that_of_a_right_triangle<S: Sample>(n: Numbers<S>, z: Complex<S>, r: S)
    requires
        n.take_roots(),
        call_ensures(Complex::<S>::norm, (z,), r),
    ensures
        (n.value)(r) >= 0real,
        (n.value)(r) * (n.value)(r) == (n.value)(z.re) * (n.value)(z.re) + (n.value)(z.im) * (
        n.value)(z.im),
{
}

/// A bin that is multiplied by a number has both parts multiplied by it, and one that is divided
/// by the same number is as it was.
pub proof fn dividing_undoes_multiplying<S: Sample>(
    n: Numbers<S>,
    z: Complex<S>,
    k: S,
    r: Complex<S>,
    q: Complex<S>,
)
    requires
        n.calculate(),
        (n.value)(k) != 0real,
        call_ensures(<Complex<S> as Scalable<S>>::scaled, (z, k), r),
        call_ensures(Complex::<S>::shrunk, (r, k), q),
    ensures
        (n.value)(r.re) == (n.value)(z.re) * (n.value)(k),
        (n.value)(r.im) == (n.value)(z.im) * (n.value)(k),
        (n.value)(q.re) == (n.value)(z.re),
        (n.value)(q.im) == (n.value)(z.im),
{
    let (a, b, c, d, v) = (
        (n.value)(q.re),
        (n.value)(z.re),
        (n.value)(q.im),
        (n.value)(z.im),
        (n.value)(k),
    );
    assert(a == b && c == d) by (nonlinear_arith)
        requires
            a * v == b * v,
            c * v == d * v,
            v != 0real,
    ;
}

/// A gain that is applied to a sample multiplies it.
pub proof fn gains_multiply_samples<S: Sample>(n: Numbers<S>, x: S, gain: S, r: S)
    requires
        n.calculate(),
        call_ensures(<S as Scalable<S>>::scaled, (x, gain), r),
    ensures
        (n.value)(r) == (n.value)(x) * (n.value)(gain),
{
}

/// A bin is made of its parts.
pub proof fn bins_are_made_of_their_parts<S: Sample>(re: S, im: S, r: Complex<S>)
    requires
        call_ensures(Complex::<S>::new, (re, im), r),
    ensures
        r.re == re,
        r.im == im,
{
}

} // verus!
