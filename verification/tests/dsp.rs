//! The signal processing, run on 32-bit floating point numbers and a real Fourier transform.
use std::sync::Arc;

use num_complex::Complex32;
use rand::distributions::{Distribution, Uniform};
use realfft::{ComplexToReal, RealFftPlanner, RealToComplex};

use speech_enhance::bands::{
    apply_band_gain, apply_interp_band_gain, band_compr, compute_band_corr,
    compute_band_corr_inner, interp_band_gain, reciprocal,
};
use speech_enhance::complex::Complex;
use speech_enhance::erb::{band_widths, erb2freq, erb_edges, erb_fb, freq2erb};
use speech_enhance::features::vorbis;
use speech_enhance::filter::post_filter;
use speech_enhance::fourier::Fourier;
use speech_enhance::norm::{
    band_mean_norm_erb, band_mean_norm_freq, band_unit_norm, band_unit_norm_t,
};
use speech_enhance::sample::{mul_inplace, scale_inplace, zeros, Sample, Scalable, Wider};
use speech_enhance::state::{apply_window, apply_window_in_place, shift, DFState};
use speech_enhance::stats::{
    argmax, argmax_abs, find_max, find_max_abs, find_min, find_min_abs, mean, rms, rms_v, NonNan,
};

#[derive(Clone, Copy, Debug, PartialEq, PartialOrd)]
struct F32(f32);

#[derive(Clone, Copy, Debug, PartialEq, PartialOrd)]
struct F64(f64);

impl Sample for F32 {
    fn zero() -> Self {
        F32(0.0)
    }
    fn one() -> Self {
        F32(1.0)
    }
    fn decimal(digits: i64, places: u32) -> Self {
        F32(format!("{digits}e-{places}").parse::<f32>().unwrap())
    }
    fn from_count(n: usize) -> Self {
        F32(n as f32)
    }
    fn from_int(n: i64) -> Self {
        F32(n as f32)
    }
    fn pi() -> Self {
        F32(std::f32::consts::PI)
    }
    fn lowest() -> Self {
        F32(f32::MIN)
    }
    fn highest() -> Self {
        F32(f32::MAX)
    }
    fn plus(self, other: Self) -> Self {
        F32(self.0 + other.0)
    }
    fn minus(self, other: Self) -> Self {
        F32(self.0 - other.0)
    }
    fn times(self, other: Self) -> Self {
        F32(self.0 * other.0)
    }
    fn over(self, other: Self) -> Self {
        F32(self.0 / other.0)
    }
    fn magnitude(self) -> Self {
        F32(self.0.abs())
    }
    fn square_root(self) -> Self {
        F32(self.0.sqrt())
    }
    fn sine(self) -> Self {
        F32(self.0.sin())
    }
    fn cosine(self) -> Self {
        F32(self.0.cos())
    }
    fn exponential(self) -> Self {
        F32(self.0.exp())
    }
    fn log_one_plus(self) -> Self {
        F32(self.0.ln_1p())
    }
    fn log_ten(self) -> Self {
        F32(self.0.log10())
    }
    fn hypotenuse(self, other: Self) -> Self {
        F32(self.0.hypot(other.0))
    }
    fn squared(self) -> Self {
        F32(self.0.powi(2))
    }
    fn lesser(self, other: Self) -> Self {
        F32(self.0.min(other.0))
    }
    fn greater(self, other: Self) -> Self {
        F32(self.0.max(other.0))
    }
    fn held_between(self, low: Self, high: Self) -> Self {
        F32(self.0.clamp(low.0, high.0))
    }
    fn is_undefined(self) -> bool {
        self.0.is_nan()
    }
    fn above(self, other: Self) -> bool {
        self.0 > other.0
    }
    fn nearest_count(self) -> usize {
        self.0.round() as usize
    }
    fn nearest_short(self) -> i16 {
        self.0.round() as i16
    }
}

impl Sample for F64 {
    fn zero() -> Self {
        F64(0.0)
    }
    fn one() -> Self {
        F64(1.0)
    }
    fn decimal(digits: i64, places: u32) -> Self {
        F64(format!("{digits}e-{places}").parse::<f64>().unwrap())
    }
    fn from_count(n: usize) -> Self {
        F64(n as f64)
    }
    fn from_int(n: i64) -> Self {
        F64(n as f64)
    }
    fn pi() -> Self {
        F64(std::f64::consts::PI)
    }
    fn lowest() -> Self {
        F64(f64::MIN)
    }
    fn highest() -> Self {
        F64(f64::MAX)
    }
    fn plus(self, other: Self) -> Self {
        F64(self.0 + other.0)
    }
    fn minus(self, other: Self) -> Self {
        F64(self.0 - other.0)
    }
    fn times(self, other: Self) -> Self {
        F64(self.0 * other.0)
    }
    fn over(self, other: Self) -> Self {
        F64(self.0 / other.0)
    }
    fn magnitude(self) -> Self {
        F64(self.0.abs())
    }
    fn square_root(self) -> Self {
        F64(self.0.sqrt())
    }
    fn sine(self) -> Self {
        F64(self.0.sin())
    }
    fn cosine(self) -> Self {
        F64(self.0.cos())
    }
    fn exponential(self) -> Self {
        F64(self.0.exp())
    }
    fn log_one_plus(self) -> Self {
        F64(self.0.ln_1p())
    }
    fn log_ten(self) -> Self {
        F64(self.0.log10())
    }
    fn hypotenuse(self, other: Self) -> Self {
        F64(self.0.hypot(other.0))
    }
    fn squared(self) -> Self {
        F64(self.0.powi(2))
    }
    fn lesser(self, other: Self) -> Self {
        F64(self.0.min(other.0))
    }
    fn greater(self, other: Self) -> Self {
        F64(self.0.max(other.0))
    }
    fn held_between(self, low: Self, high: Self) -> Self {
        F64(self.0.clamp(low.0, high.0))
    }
    fn is_undefined(self) -> bool {
        self.0.is_nan()
    }
    fn above(self, other: Self) -> bool {
        self.0 > other.0
    }
    fn nearest_count(self) -> usize {
        self.0.round() as usize
    }
    fn nearest_short(self) -> i16 {
        self.0.round() as i16
    }
}

impl Wider<F32> for F64 {
    fn narrowed(self) -> F32 {
        F32(self.0 as f32)
    }
}

struct Fft {
    forward: Arc<dyn RealToComplex<f32>>,
    inverse: Arc<dyn ComplexToReal<f32>>,
}

impl Fft {
    fn new(n: usize) -> Self {
        let mut planner = RealFftPlanner::<f32>::new();
        Fft { forward: planner.plan_fft_forward(n), inverse: planner.plan_fft_inverse(n) }
    }
}

impl Fourier<F32> for Fft {
    fn forward(&self, frame: &[F32]) -> Vec<Complex<F32>> {
        let mut input: Vec<f32> = frame.iter().map(|x| x.0).collect();
        let mut output = self.forward.make_output_vec();
        self.forward.process(&mut input, &mut output).unwrap();
        output.iter().map(|z| Complex { re: F32(z.re), im: F32(z.im) }).collect()
    }
    fn inverse(&self, spectrum: &[Complex<F32>]) -> Vec<F32> {
        let mut input: Vec<Complex32> =
            spectrum.iter().map(|z| Complex32::new(z.re.0, z.im.0)).collect();
        let mut output = self.inverse.make_output_vec();
        match self.inverse.process(&mut input, &mut output) {
            Err(realfft::FftError::InputValues(_, _)) => (),
            Err(e) => panic!("{e:?}"),
            Ok(()) => (),
        }
        output.into_iter().map(F32).collect()
    }
}

fn wrap(xs: &[f32]) -> Vec<F32> {
    xs.iter().map(|&x| F32(x)).collect()
}

fn bare(xs: &[F32]) -> Vec<f32> {
    xs.iter().map(|x| x.0).collect()
}

fn z(re: f32, im: f32) -> Complex<F32> {
    Complex { re: F32(re), im: F32(im) }
}

fn parts(zs: &[Complex<F32>]) -> Vec<(f32, f32)> {
    zs.iter().map(|z| (z.re.0, z.im.0)).collect()
}

fn state(sr: usize, fft: usize, hop: usize, bands: usize, least: usize) -> DFState<F32> {
    DFState::new::<F64>(sr, fft, hop, bands, least).unwrap()
}

fn near(a: f32, b: f32, tolerance: f32) -> bool {
    (a - b).abs() <= tolerance
}

/// A signal without any period that matters here.
fn tone(n: usize) -> Vec<f32> {
    (0..n).map(|i| (i as f32 * 0.37).sin() * 0.5 + (i as f32 * 0.011).cos() * 0.25).collect()
}

#[test]
fn test_erb_inout() {
    let sr = 24000;
    let n_fft = 192;
    let n_freqs = n_fft / 2 + 1;
    let hop = n_fft / 2;
    let nb_bands = 24;
    let state = state(sr, n_fft, hop, nb_bands, 1);
    let d = Uniform::new(-1., 1.);
    let mut input = Vec::with_capacity(n_freqs);
    let mut rng = rand::thread_rng();
    for _ in 0..(n_freqs) {
        input.push(Complex32::new(d.sample(&mut rng), d.sample(&mut rng)))
    }
    let mut mask = vec![1.; nb_bands];
    mask[3] = 0.3;
    mask[nb_bands - 1] = 0.5;
    let mut output: Vec<Complex<F32>> = input.iter().map(|x| z(x.re, x.im)).collect();
    apply_band_gain(&mut output, &wrap(&mask), &state.erb);
    let mut cumsum = 0;
    for (erb_idx, erb_w) in state.erb.iter().enumerate() {
        for i in cumsum..cumsum + erb_w {
            let got = Complex32::new(output[i].re.0, output[i].im.0);
            assert_eq!(input[i] * mask[erb_idx], got)
        }
        cumsum += erb_w;
    }
    assert_eq!(cumsum, n_freqs);
}

// Bands.

#[test]
fn erb_scale_follows_its_formula() {
    assert_eq!(freq2erb(F32(0.0)), F32(0.0));
    assert_eq!(erb2freq(F32(0.0)), F32(0.0));
    let f = 1000.0f32;
    assert_eq!(freq2erb(F32(f)).0, 9.265f32 * (f / (24.7f32 * 9.265f32)).ln_1p());
    let e = 15.5f32;
    assert_eq!(erb2freq(F32(e)).0, 24.7f32 * 9.265f32 * ((e / 9.265f32).exp() - 1.0));
}

#[test]
fn erb_scale_can_be_walked_back() {
    for f in [20.0f32, 440.0, 5000.0, 24000.0] {
        assert!(near(erb2freq(freq2erb(F32(f))).0, f, f * 1e-4));
    }
}

#[test]
fn default_bands_are_those_of_the_models() {
    let expected: Vec<usize> = vec![
        2, 2, 2, 2, 2, 2, 2, 2, 2, 2, 2, 2, 2, 5, 5, 7, 7, 8, 10, 12, 13, 15, 18, 20, 24, 28, 31,
        37, 42, 50, 56, 67,
    ];
    assert_eq!(erb_fb::<F32>(48000, 960, 32, 2), Some(expected));
}

#[test]
fn narrow_bands_borrow_bins() {
    let expected: Vec<usize> = vec![
        1, 1, 1, 1, 1, 1, 1, 1, 1, 1, 1, 1, 2, 3, 3, 4, 5, 5, 7, 8, 9, 10, 13, 16,
    ];
    assert_eq!(erb_fb::<F32>(24000, 192, 24, 1), Some(expected));
    let edges: Vec<usize> =
        vec![0, 1, 1, 2, 2, 3, 4, 5, 6, 8, 10, 12, 14, 17, 20, 24, 29, 34, 41, 49, 58, 68, 81, 96];
    assert_eq!(erb_edges::<F32>(24000, 192, 24), edges);
}

#[test]
fn band_layouts_cover_the_spectrum() {
    for (sr, fft, bands, least) in [(48000, 960, 32, 2), (16000, 320, 32, 2), (24000, 192, 24, 1)] {
        let widths = erb_fb::<F32>(sr, fft, bands, least).unwrap();
        assert_eq!(widths.len(), bands);
        assert_eq!(widths.iter().sum::<usize>(), fft / 2 + 1);
        assert!(widths.iter().all(|&w| w >= least));
    }
}

#[test]
fn band_widths_follow_the_edges() {
    // The last band takes the bin at half the sample rate too, and gives up what is too much.
    assert_eq!(band_widths(&[3, 5, 9], 16, 2), Some(vec![3, 2, 4]));
    assert_eq!(band_widths(&[3, 5, 8], 16, 2), Some(vec![3, 2, 4]));
    assert_eq!(band_widths(&[1, 1, 2, 8], 16, 2), Some(vec![2, 2, 2, 3]));
}

#[test]
fn some_bands_have_no_layout() {
    assert_eq!(band_widths(&[], 16, 2), None);
    assert_eq!(band_widths(&[1], 16, 2), None);
    assert_eq!(band_widths(&[0, 0, 0, 0, 0, 8], 16, 8), None);
    assert_eq!(erb_fb::<F32>(48000, 960, 0, 2), None);
    assert!(DFState::<F32>::new::<F64>(48000, 960, 480, 0, 2).is_none());
}

#[test]
fn every_bin_lies_in_one_band() {
    let widths = erb_fb::<F32>(48000, 960, 32, 2).unwrap();
    let mut hits = vec![0; 481];
    let mut start = 0;
    for w in widths {
        for hit in &mut hits[start..start + w] {
            *hit += 1;
        }
        start += w;
    }
    assert!(hits.iter().all(|&h| h == 1));
}

#[test]
fn borrowed_bins_are_paid_for_by_the_bands_above() {
    let edges = erb_edges::<F32>(48000, 960, 32);
    let widths = band_widths(&edges, 960, 2).unwrap();
    let mut end = 0;
    for b in 0..31 {
        end += widths[b];
        // As long as bands are too narrow, they reach beyond their edge; then the debt is paid.
        assert!(end >= edges[b]);
        if widths[b] > 2 {
            assert_eq!(end, edges[b]);
        }
    }
}

#[test]
fn band_correlation_is_the_mean_product() {
    let x = vec![z(1.0, 2.0), z(3.0, 4.0), z(5.0, 6.0)];
    let p = vec![z(2.0, 1.0), z(1.0, 0.5), z(1.0, -1.0)];
    let mut out = wrap(&[9.0, 9.0]);
    compute_band_corr(&mut out, &x, &p, &[1, 2]);
    assert_eq!(bare(&out), vec![4.0, (5.0 - 1.0) * 0.5]);
    assert_eq!(compute_band_corr_inner(&x, &p, 0, 3), F32(8.0));
    assert_eq!(reciprocal::<F32>(4), F32(0.25));
}

#[test]
fn band_compression_is_the_mean_value() {
    let mut out = wrap(&[7.0, 7.0, 7.0]);
    band_compr(&mut out, &wrap(&[1.0, 2.0, 3.0, 4.0, 10.0]), &[2, 1, 2]);
    assert_eq!(bare(&out), vec![1.5, 3.0, 7.0]);
}

#[test]
fn gains_reach_the_bins_of_their_bands() {
    let mut out = wrap(&[1.0, 2.0, 3.0, 4.0, 5.0]);
    apply_interp_band_gain(&mut out, &wrap(&[2.0, 3.0]), &[2, 1, 2]);
    assert_eq!(bare(&out), vec![2.0, 4.0, 9.0, 4.0, 5.0]);
    interp_band_gain(&mut out, &wrap(&[0.5, 0.25, 8.0]), &[1, 3]);
    assert_eq!(bare(&out), vec![0.5, 0.25, 0.25, 0.25, 5.0]);
    let mut bins = vec![z(1.0, 2.0), z(3.0, -4.0), z(5.0, 6.0)];
    apply_interp_band_gain(&mut bins, &wrap(&[2.0]), &[2, 1]);
    assert_eq!(parts(&bins), vec![(2.0, 4.0), (6.0, -8.0), (5.0, 6.0)]);
}

#[test]
fn both_ways_to_apply_gains_agree() {
    let bins: Vec<Complex<F32>> = (0..10).map(|i| z(i as f32 * 0.7, 1.0 - i as f32)).collect();
    let gains = wrap(&[0.3, 0.9, 1.7]);
    let mut a = bins.clone();
    let mut b = bins;
    apply_band_gain(&mut a, &gains, &[4, 1, 5]);
    apply_interp_band_gain(&mut b, &gains, &[4, 1, 5]);
    assert_eq!(parts(&a), parts(&b));
}

// Normalization.

#[test]
fn mean_normalization_of_magnitudes() {
    let mut state = wrap(&[0.5, 1.0]);
    let mut out = wrap(&[0.0, 0.0]);
    band_mean_norm_freq(&[z(3.0, 4.0), z(0.0, -2.0)], &mut out, &mut state, F32(0.75));
    let s0 = 5.0f32 * (1.0 - 0.75) + 0.5 * 0.75;
    let s1 = 2.0f32 * (1.0 - 0.75) + 1.0 * 0.75;
    assert_eq!(bare(&state), vec![s0, s1]);
    assert_eq!(bare(&out), vec![5.0 - s0, 2.0 - s1]);
}

#[test]
fn mean_normalization_of_levels() {
    let mut state = wrap(&[-60.0, -90.0]);
    let mut xs = wrap(&[-20.0, -70.0]);
    band_mean_norm_erb(&mut xs, &mut state, F32(0.99));
    let s0 = -20.0f32 * (1.0 - 0.99) + -60.0 * 0.99;
    let s1 = -70.0f32 * (1.0 - 0.99) + -90.0 * 0.99;
    assert_eq!(bare(&state), vec![s0, s1]);
    assert_eq!(bare(&xs), vec![(-20.0 - s0) / 40.0, (-70.0 - s1) / 40.0]);
}

#[test]
fn unit_normalization_divides_by_the_root() {
    let mut state = wrap(&[0.001, 4.0]);
    let mut xs = vec![z(3.0, 4.0), z(0.0, 4.0)];
    band_unit_norm(&mut xs, &mut state, F32(0.5));
    let s0 = 5.0f32 * 0.5 + 0.001 * 0.5;
    assert_eq!(bare(&state), vec![s0, 4.0]);
    assert_eq!(parts(&xs), vec![(3.0 / s0.sqrt(), 4.0 / s0.sqrt()), (0.0, 2.0)]);
}

#[test]
fn transposed_normalization_keeps_the_bins() {
    let bins = vec![z(3.0, 4.0), z(-1.0, 0.5), z(0.25, 4.0)];
    let mut state_a = wrap(&[0.001, 0.002, 0.003]);
    let mut state_b = state_a.clone();
    let mut plain = bins.clone();
    band_unit_norm(&mut plain, &mut state_a, F32(0.9));
    let mut flat = wrap(&[1.0; 7]);
    band_unit_norm_t(&bins, &mut state_b, F32(0.9), &mut flat);
    assert_eq!(state_a, state_b);
    for i in 0..3 {
        assert_eq!(plain[i].re, flat[i]);
        assert_eq!(plain[i].im, flat[3 + i]);
    }
    assert_eq!(flat[6], F32(1.0));
}

// Streams.

#[test]
fn default_stream_has_the_sizes_of_the_models() {
    let s = DFState::<F32>::with_defaults::<F64>().unwrap();
    assert_eq!((s.sr, s.frame_size, s.window_size, s.freq_size), (48000, 480, 960, 481));
    assert_eq!(s.erb.len(), 32);
    assert_eq!(s.window.len(), 960);
    assert_eq!(s.wnorm.0, 1.0f32 / (921600.0f32 / 960.0));
    assert_eq!(s.analysis_mem, zeros::<F32>(480));
    assert_eq!(s.synthesis_mem, zeros::<F32>(480));
    assert!(s.mean_norm_state.is_empty() && s.unit_norm_state.is_empty());
}

#[test]
fn window_is_the_vorbis_window() {
    let s = state(16000, 64, 32, 4, 1);
    let pi = std::f64::consts::PI;
    for i in 0..64 {
        let sin = (0.5 * pi * (i as f64 + 0.5) / 32.0).sin();
        let expected = (0.5 * pi * sin * sin).sin() as f32;
        assert_eq!(s.window[i].0, expected);
        assert_eq!(vorbis::<F32, F64>(i, 32).0, expected);
    }
    // The squares of two places half a window apart add up to one.
    for i in 0..32 {
        let (a, b) = (s.window[i].0, s.window[i + 32].0);
        assert!(near(a * a + b * b, 1.0, 1e-6));
    }
}

#[test]
fn analysis_is_the_scaled_spectrum_of_the_windowed_frame() {
    let mut s = state(16000, 32, 16, 4, 1);
    let fft = Fft::new(32);
    let x = tone(32);
    let mut bins = vec![z(0.0, 0.0); 17];
    s.analysis(&wrap(&x[..16]), &mut bins, &fft);
    s.analysis(&wrap(&x[16..]), &mut bins, &fft);
    let windowed: Vec<F32> = (0..32).map(|i| F32(x[i] * s.window[i].0)).collect();
    let expected: Vec<(f32, f32)> =
        fft.forward(&windowed).iter().map(|c| (c.re.0 * s.wnorm.0, c.im.0 * s.wnorm.0)).collect();
    assert_eq!(parts(&bins), expected);
    assert_eq!(bare(&s.analysis_mem), x[16..].to_vec());
}

#[test]
fn stream_gives_the_signal_back_one_hop_later() {
    let hop = 96;
    let mut s = state(24000, 192, hop, 24, 1);
    let fft = Fft::new(192);
    let x = tone(hop * 8);
    let mut y: Vec<f32> = Vec::new();
    for chunk in x.chunks(hop) {
        let mut out = zeros::<F32>(hop);
        s.process_frame(&wrap(chunk), &mut out, &fft);
        y.extend(bare(&out));
    }
    for i in 0..x.len() - hop {
        assert!(near(y[i + hop], x[i], 1e-5), "{i}: {} {}", y[i + hop], x[i]);
    }
}

#[test]
fn processing_is_analysis_and_then_synthesis() {
    let mut a = state(16000, 64, 16, 8, 1);
    let mut b = a.clone();
    let fft = Fft::new(64);
    let x = tone(64);
    for chunk in x.chunks(16) {
        let mut out_a = zeros::<F32>(16);
        let mut out_b = zeros::<F32>(16);
        a.process_frame(&wrap(chunk), &mut out_a, &fft);
        let mut bins = vec![z(0.0, 0.0); 33];
        b.analysis(&wrap(chunk), &mut bins, &fft);
        b.synthesis(&bins, &mut out_b, &fft);
        assert_eq!(out_a, out_b);
        assert_eq!(a.synthesis_mem, b.synthesis_mem);
    }
}

#[test]
fn imaginary_ends_have_no_effect_on_the_synthesis() {
    let mut a = state(16000, 32, 16, 4, 1);
    let mut b = a.clone();
    let fft = Fft::new(32);
    let bins: Vec<Complex<F32>> = (0..17).map(|f| z(1.0 + f as f32, 0.5 * f as f32)).collect();
    let mut real_ended = bins.clone();
    real_ended[0].im = F32(0.0);
    real_ended[16].im = F32(0.0);
    for _ in 0..3 {
        let mut out_a = zeros::<F32>(16);
        let mut out_b = zeros::<F32>(16);
        a.synthesis(&bins, &mut out_a, &fft);
        b.synthesis(&real_ended, &mut out_b, &fft);
        assert_eq!(out_a, out_b);
        assert_eq!(a.synthesis_mem, b.synthesis_mem);
    }
}

#[test]
fn streams_do_not_need_bands() {
    let mut s = state(16000, 32, 16, 4, 1);
    s.erb = vec![1, 2];
    let mut other = state(16000, 32, 16, 4, 1);
    let fft = Fft::new(32);
    let (mut x, mut y) = (zeros::<F32>(16), zeros::<F32>(16));
    s.process_frame(&wrap(&tone(16)), &mut x, &fft);
    other.process_frame(&wrap(&tone(16)), &mut y, &fft);
    assert_eq!(x, y);
    s.reset();
    assert_eq!(s.erb, vec![1, 2]);
    assert_eq!(s.analysis_mem, zeros::<F32>(16));
}

#[test]
fn stream_remembers_the_latest_samples() {
    let mut s = state(16000, 64, 16, 8, 1);
    let x = tone(80);
    for (k, chunk) in x.chunks(16).enumerate() {
        s.windowed_frame(&wrap(chunk));
        let heard = &x[..16 * (k + 1)];
        let mut expected = vec![0.0f32; 48];
        expected.extend_from_slice(heard);
        assert_eq!(bare(&s.analysis_mem), expected[heard.len()..].to_vec());
    }
    assert_eq!(bare(&shift(&wrap(&[1.0, 2.0, 3.0]), &wrap(&[4.0]))), vec![2.0, 3.0, 4.0]);
}

#[test]
fn overlapping_frames_add_up() {
    // Four hops to a window: a place of the output is reached by four frames.
    let mut s = state(16000, 64, 16, 8, 1);
    let ones = wrap(&[1.0; 64]);
    let mut out = zeros::<F32>(16);
    let mut frames = 0;
    for _ in 0..6 {
        s.overlap_add(ones.clone(), &mut out);
        frames = if frames < 4 { frames + 1 } else { frames };
        for i in 0..16 {
            let mut sum = 0.0f32;
            for k in (0..frames).rev() {
                sum += s.window[16 * k + i].0;
            }
            assert!(near(out[i].0, sum, 1e-6));
        }
    }
}

#[test]
fn half_overlap_adds_two_frames() {
    let mut s = state(16000, 32, 16, 4, 1);
    let first: Vec<f32> = (0..32).map(|i| i as f32).collect();
    let second: Vec<f32> = (0..32).map(|i| 100.0 - i as f32).collect();
    let mut out = zeros::<F32>(16);
    s.overlap_add(wrap(&first), &mut out);
    s.overlap_add(wrap(&second), &mut out);
    for i in 0..16 {
        let w = &s.window;
        assert_eq!(out[i].0, second[i] * w[i].0 + first[16 + i] * w[16 + i].0);
        assert_eq!(s.synthesis_mem[i].0, second[16 + i] * w[16 + i].0);
    }
}

#[test]
fn reset_stream_is_silent_again() {
    let mut s = state(16000, 32, 16, 4, 1);
    s.init_norm_states(5);
    let fresh = s.clone();
    let fft = Fft::new(32);
    let mut out = zeros::<F32>(16);
    s.process_frame(&wrap(&tone(16)), &mut out, &fft);
    assert_ne!(s.analysis_mem, fresh.analysis_mem);
    s.reset();
    assert_eq!(s.analysis_mem, fresh.analysis_mem);
    assert_eq!(s.synthesis_mem, fresh.synthesis_mem);
    assert_eq!(s.mean_norm_state, fresh.mean_norm_state);
    assert_eq!(s.unit_norm_state, fresh.unit_norm_state);
}

#[test]
fn reset_stream_goes_on_as_a_fresh_one() {
    let fft = Fft::new(64);
    let mut used = state(16000, 64, 16, 8, 1);
    let mut out = zeros::<F32>(16);
    for chunk in tone(80).chunks(16) {
        used.process_frame(&wrap(chunk), &mut out, &fft);
    }
    used.reset();
    let mut fresh = state(16000, 64, 16, 8, 1);
    for chunk in tone(160)[80..].chunks(16) {
        let mut other = zeros::<F32>(16);
        used.process_frame(&wrap(chunk), &mut out, &fft);
        fresh.process_frame(&wrap(chunk), &mut other, &fft);
        assert_eq!(out, other);
    }
}

#[test]
fn running_averages_start_on_ramps() {
    let mut s = DFState::<F32>::with_defaults::<F64>().unwrap();
    s.init_norm_states(96);
    let step = (-90.0f32 - -60.0) / 31.0;
    let expected: Vec<f32> = (0..32).map(|i| -60.0 + i as f32 * step).collect();
    assert_eq!(bare(&s.mean_norm_state), expected);
    let step = (0.0001f32 - 0.001) / 95.0;
    let expected: Vec<f32> = (0..96).map(|i| 0.001 + i as f32 * step).collect();
    assert_eq!(bare(&s.unit_norm_state), expected);
}

#[test]
fn band_features_are_levels_against_their_average() {
    let mut s = state(16000, 16, 8, 2, 1);
    s.init_mean_norm_state();
    let before = bare(&s.mean_norm_state);
    let bins: Vec<Complex<F32>> = (0..9).map(|i| z(i as f32 * 0.1, 0.2)).collect();
    let alpha = 0.9f32;
    let mut out = zeros::<F32>(2);
    s.feat_erb(&bins, F32(alpha), &mut out);
    let mut start = 0;
    for b in 0..2 {
        let width = s.erb[b];
        let mut sum = 0.0f32;
        for c in &bins[start..start + width] {
            sum += c.re.0 * c.re.0;
            sum += c.im.0 * c.im.0;
        }
        let level = (sum * (1.0 / width as f32) + 1e-10).log10() * 10.0;
        let average = level * (1.0 - alpha) + before[b] * alpha;
        assert_eq!(s.mean_norm_state[b].0, average);
        assert_eq!(out[b].0, (level - average) / 40.0);
        start += width;
    }
}

#[test]
fn complex_features_agree_with_each_other() {
    let mut a = state(16000, 16, 8, 2, 1);
    a.init_unit_norm_state(4);
    let mut b = a.clone();
    let bins: Vec<Complex<F32>> = (0..4).map(|i| z(1.0 + i as f32, -2.0)).collect();
    let mut out = vec![z(0.0, 0.0); 4];
    a.feat_cplx(&bins, F32(0.8), &mut out);
    let mut flat = zeros::<F32>(8);
    b.feat_cplx_t(&bins, F32(0.8), &mut flat);
    assert_eq!(a.unit_norm_state, b.unit_norm_state);
    let s0 = bins[0].norm().0 * (1.0f32 - 0.8) + 0.001 * 0.8;
    assert_eq!(out[0].re.0, 1.0 / s0.sqrt());
    for i in 0..4 {
        assert_eq!((out[i].re, out[i].im), (flat[i], flat[4 + i]));
    }
}

#[test]
fn mask_scales_the_bands() {
    let s = state(16000, 16, 8, 2, 1);
    let mut bins = vec![z(1.0, -2.0); 9];
    s.apply_mask(&mut bins, &wrap(&[0.5, 3.0]));
    for (i, c) in bins.iter().enumerate() {
        let gain = if i < s.erb[0] { 0.5 } else { 3.0 };
        assert_eq!((c.re.0, c.im.0), (gain, -2.0 * gain));
    }
}

#[test]
fn windows_reach_as_far_as_the_signal() {
    let window = wrap(&[0.5, 2.0, 4.0]);
    assert_eq!(bare(&apply_window(&wrap(&[2.0, 3.0]), &window)), vec![1.0, 6.0, 0.0]);
    assert_eq!(bare(&apply_window(&wrap(&[1.0, 1.0, 1.0, 1.0]), &window)), vec![0.5, 2.0, 4.0]);
    let mut xs = wrap(&[2.0, 3.0, 5.0]);
    apply_window_in_place(&mut xs, &window);
    assert_eq!(bare(&xs), vec![1.0, 6.0, 20.0]);
}

#[test]
fn samples_scale_in_place() {
    let mut xs = wrap(&[1.0, -2.0, 3.0]);
    scale_inplace(&mut xs, F32(0.5));
    assert_eq!(bare(&xs), vec![0.5, -1.0, 1.5]);
    mul_inplace(&mut xs, &wrap(&[2.0, 3.0, 0.0]));
    assert_eq!(bare(&xs), vec![1.0, -3.0, 0.0]);
    assert_eq!(F32(3.0).scaled(F32(2.0)), F32(6.0));
    assert_eq!(Complex::new(F32(3.0), F32(4.0)).norm(), F32(5.0));
    assert_eq!(parts(&[z(3.0, 4.0).shrunk(F32(2.0))]), vec![(1.5, 2.0)]);
}

// The post filter.

fn filtered(n: (f32, f32), e: (f32, f32), beta: f32) -> (f32, f32) {
    let eps = 1e-12f32;
    let pi = std::f32::consts::PI;
    let g = (e.0.hypot(e.1) / (n.0.hypot(n.1) + eps)).min(1.0).max(eps);
    let g_sin = g * (g * pi / 2.0).sin();
    let pf = ((beta + 1.0) * g / (1.0 + beta * (g / g_sin).powi(2))) / g;
    (e.0 * pf, e.1 * pf)
}

#[test]
fn post_filter_follows_its_formula_in_groups_of_four() {
    let noisy: Vec<(f32, f32)> = (0..7).map(|i| (1.0 + i as f32, 0.5)).collect();
    let enh: Vec<(f32, f32)> = (0..7).map(|i| (0.5 + 0.3 * i as f32, -0.25)).collect();
    let noisy_z: Vec<Complex<F32>> = noisy.iter().map(|&(a, b)| z(a, b)).collect();
    let mut enh_z: Vec<Complex<F32>> = enh.iter().map(|&(a, b)| z(a, b)).collect();
    post_filter(&noisy_z, &mut enh_z, F32(0.02));
    let got = parts(&enh_z);
    for i in 0..4 {
        assert_eq!(got[i], filtered(noisy[i], enh[i], 0.02));
        assert_ne!(got[i], enh[i]);
    }
    // What does not fill a group of four is left alone.
    assert_eq!(got[4..], enh[4..]);
}

// Statistics.

#[test]
fn extremes_of_samples() {
    let xs = wrap(&[1.5, -4.0, 3.0]);
    assert_eq!(find_max(&xs), Some(F32(3.0)));
    assert_eq!(find_min(&xs), Some(F32(-4.0)));
    assert_eq!(find_max_abs(&xs), Some(F32(4.0)));
    assert_eq!(find_min_abs(&xs), Some(F32(0.0)));
}

#[test]
fn extremes_of_nothing() {
    assert_eq!(find_max::<F32>(&[]), Some(F32(f32::MIN)));
    assert_eq!(find_min::<F32>(&[]), Some(F32(f32::MAX)));
    assert_eq!(find_max_abs::<F32>(&[]), Some(F32(0.0)));
    assert_eq!(find_min_abs::<F32>(&[]), Some(F32(0.0)));
}

#[test]
fn extremes_need_numbers() {
    let xs = wrap(&[1.0, f32::NAN, 2.0]);
    assert_eq!(find_max(&xs), None);
    assert_eq!(find_min(&xs), None);
    assert_eq!(find_max_abs(&xs), None);
    assert_eq!(find_min_abs(&xs), None);
    assert!(NonNan::new(F32(f32::NAN)).is_none());
    assert_eq!(NonNan::new(F32(2.5)).unwrap().get(), F32(2.5));
}

#[test]
fn places_of_peaks() {
    assert_eq!(argmax(&wrap(&[1.0, 3.0, 2.0, 3.0])), Some(1));
    assert_eq!(argmax::<F32>(&[]), Some(0));
    assert_eq!(argmax(&wrap(&[f32::NAN, -1.0])), Some(1));
    // A sample is held against the magnitude of the last peak, not its own magnitude.
    assert_eq!(argmax_abs(&wrap(&[-5.0, 3.0, 6.0])), Some(2));
    assert_eq!(argmax_abs(&wrap(&[1.0, -9.0])), Some(0));
    for n in 1..6 {
        let xs = wrap(&tone(n));
        assert!(argmax(&xs).unwrap() < n && argmax_abs(&xs).unwrap() < n);
    }
}

#[test]
fn means_of_samples() {
    let xs = wrap(&[3.0, 4.0, 5.0]);
    assert_eq!(mean(&xs), F32(4.0));
    assert_eq!(rms(&xs).0, (50.0f32 / 3.0).sqrt());
    assert_eq!(rms_v(xs), F32((50.0f32 / 3.0).sqrt()));
    assert!(mean::<F32>(&[]).0.is_nan());
    assert!(rms::<F32>(&[]).0.is_nan());
}
