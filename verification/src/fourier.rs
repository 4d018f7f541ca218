//! The discrete Fourier transform of real frames, as the analysis and synthesis use it.
use vstd::prelude::*;

use crate::complex::Complex;
use crate::sample::Sample;

verus! {

/// A Fourier transform between frames of real samples and the bins of their spectra, without
/// any scaling. What it computes is its own affair: the contracts of this crate say what is
/// handed to it and what becomes of the result.
pub trait Fourier<S: Sample> {
    /// The spectrum of a frame: its bins from zero up to half the sample rate.
    fn forward(&self, frame: &[S]) -> Vec<Complex<S>>;

    /// The frame with a given spectrum.
    fn inverse(&self, spectrum: &[Complex<S>]) -> Vec<S>;
}

/// `spectrum` is a result of `fourier.forward` on `frame`.
pub open spec fn forward_is<S: Sample, F: Fourier<S>>(
    fourier: &F,
    frame: Seq<S>,
    spectrum: Seq<Complex<S>>,
) -> bool {
    exists|v: &[S], r: Vec<Complex<S>>|
        v@ == frame && r@ == spectrum && #[trigger] call_ensures(F::forward, (fourier, v), r)
}

/// `frame` is a result of `fourier.inverse` on `spectrum`.
pub open spec fn inverse_is<S: Sample, F: Fourier<S>>(
    fourier: &F,
    spectrum: Seq<Complex<S>>,
    frame: Seq<S>,
) -> bool {
    exists|v: &[Complex<S>], r: Vec<S>|
        v@ == spectrum && r@ == frame && #[trigger] call_ensures(F::inverse, (fourier, v), r)
}

/// The transform has the sizes that belong to frames of `n` samples: it takes such a frame to
/// `n / 2 + 1` bins, and that many bins to such a frame.
pub open spec fn has_size<S: Sample, F: Fourier<S>>(fourier: &F, n: int) -> bool {
    &&& forall|v: &[S], r: Vec<Complex<S>>|
        v@.len() == n && #[trigger] call_ensures(F::forward, (fourier, v), r) ==> r@.len() == n / 2
            + 1
    &&& forall|v: &[Complex<S>], r: Vec<S>|
        v@.len() == n / 2 + 1 && #[trigger] call_ensures(F::inverse, (fourier, v), r)
            ==> r@.len() == n
}

/// The transform has one outcome each way: asked again, it gives the same.
pub open spec fn has_one_outcome<S: Sample, F: Fourier<S>>(fourier: &F) -> bool {
    &&& forall|v: &[S], w: &[S], r: Vec<Complex<S>>, q: Vec<Complex<S>>|
        #[trigger] call_ensures(F::forward, (fourier, v), r) && #[trigger] call_ensures(
            F::forward,
            (fourier, w),
            q,
        ) && v@ == w@ ==> r@ == q@
    &&& forall|v: &[Complex<S>], w: &[Complex<S>], r: Vec<S>, q: Vec<S>|
        #[trigger] call_ensures(F::inverse, (fourier, v), r) && #[trigger] call_ensures(
            F::inverse,
            (fourier, w),
            q,
        ) && v@ == w@ ==> r@ == q@
}

/// The two spectra agree but for the imaginary parts of the first and the last bin.
pub open spec fn agree_but_for_imaginary_ends<S: Sample>(
    a: Seq<Complex<S>>,
    b: Seq<Complex<S>>,
) -> bool {
    &&& a.len() == b.len()
    &&& forall|f: int| 0 <= f < a.len() ==> (#[trigger] a[f]).re == b[f].re
    &&& forall|f: int| 0 < f < a.len() - 1 ==> (#[trigger] a[f]).im == b[f].im
}

/// The transform does not read the imaginary parts of the first and the last of `bins` bins: what
/// it turns a spectrum back into has one outcome whatever they are.
pub open spec fn ignores_imaginary_ends<S: Sample, F: Fourier<S>>(fourier: &F, bins: int) -> bool {
    forall|v: &[Complex<S>], w: &[Complex<S>], r: Vec<S>, q: Vec<S>|
        #[trigger] call_ensures(F::inverse, (fourier, v), r) && #[trigger] call_ensures(
            F::inverse,
            (fourier, w),
            q,
        ) && v@.len() == bins && agree_but_for_imaginary_ends(v@, w@) ==> r@ == q@
}

} // verus!
