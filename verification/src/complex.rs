//! Complex numbers over any sample type.
use vstd::prelude::*;

use crate::sample::{Sample, Scalable};

verus! {

/// A complex number in Cartesian form.
#[derive(Clone, Copy)]
pub struct Complex<S> {
    /// The real part.
    pub re: S,
    /// The imaginary part.
    pub im: S,
}

/// `r` is `z` with both parts multiplied by the real number `k`.
pub open spec fn complex_scales<S: Sample>(z: Complex<S>, k: S, r: Complex<S>) -> bool {
    &&& crate::sample::multiplies(z.re, k, r.re)
    &&& crate::sample::multiplies(z.im, k, r.im)
}

/// `r` is `z` with both parts divided by the real number `k`.
pub open spec fn complex_shrinks<S: Sample>(z: Complex<S>, k: S, r: Complex<S>) -> bool {
    &&& crate::sample::divides(z.re, k, r.re)
    &&& crate::sample::divides(z.im, k, r.im)
}

/// `r` is the distance of `z` from the origin.
#[verifier::inline]
pub open spec fn norm_is<S: Sample>(z: Complex<S>, r: S) -> bool {
    call_ensures(S::hypotenuse, (z.re, z.im), r)
}

impl<S: Sample> Complex<S> {
    /// The number with the given real and imaginary parts.
    pub fn new(re: S, im: S) -> (r: Self)
        ensures
            r == (Complex { re, im }),
    {
        Complex { re, im }
    }

    /// The distance from the origin.
    pub fn norm(self) -> (r: S)
        ensures
            norm_is(self, r),
    {
        self.re.hypotenuse(self.im)
    }

    /// This number divided by a real number.
    pub fn shrunk(self, k: S) -> (r: Self)
        ensures
            complex_shrinks(self, k, r),
    {
        Complex { re: self.re.over(k), im: self.im.over(k) }
    }
}

impl<S: Sample> Scalable<S> for Complex<S> {
    fn scaled(self, gain: S) -> (r: Self)
        ensures
            complex_scales(self, gain, r),
    {
        Complex { re: self.re.times(gain), im: self.im.times(gain) }
    }
}

} // verus!
