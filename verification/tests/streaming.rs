//! Streaming enhancement and sound files, run on 32-bit floating point numbers with models that
//! answer in simple ways.
use std::cell::Cell;
use std::rc::Rc;
use std::sync::Arc;

use num_complex::Complex32;
use realfft::{ComplexToReal, RealFftPlanner, RealToComplex};

use speech_enhance::complex::Complex;
use speech_enhance::fourier::Fourier;
use speech_enhance::load::{Loader, Next};
use speech_enhance::sample::Sample;
use speech_enhance::stream::{
    conv_cache_shape, enhance, inter_cache_shape, interleave, next_hop, real_ended, sqrt_hann,
    tra_cache_shape, without_delay, Answer, GtcrnStream, Model, Stft, HOP, N_FFT, N_FREQ,
    SAMPLE_RATE,
};
use speech_enhance::wav::{
    check_rate, decode, downmix, encode, frame_count, full_scale, quantize, WavError,
};

#[derive(Clone, Copy, Debug, PartialEq, PartialOrd)]
struct F32(f32);

impl Sample for F32 {
    fn zero() -> Self {
        F32(0.0)
    }
    fn one() -> Self {
        F32(1.0)
    }
    fn decimal(digits: i64, places: u32) -> Self {
        F32(format!("{digits}e-{places}").parse::<f32>().unwrap())
    }
    fn from_count(n: usize) -> Self {
        F32(n as f32)
    }
    fn from_int(n: i64) -> Self {
        F32(n as f32)
    }
    fn pi() -> Self {
        F32(std::f32::consts::PI)
    }
    fn lowest() -> Self {
        F32(f32::MIN)
    }
    fn highest() -> Self {
        F32(f32::MAX)
    }
    fn plus(self, other: Self) -> Self {
        F32(self.0 + other.0)
    }
    fn minus(self, other: Self) -> Self {
        F32(self.0 - other.0)
    }
    fn times(self, other: Self) -> Self {
        F32(self.0 * other.0)
    }
    fn over(self, other: Self) -> Self {
        F32(self.0 / other.0)
    }
    fn magnitude(self) -> Self {
        F32(self.0.abs())
    }
    fn square_root(self) -> Self {
        F32(self.0.sqrt())
    }
    fn sine(self) -> Self {
        F32(self.0.sin())
    }
    fn cosine(self) -> Self {
        F32(self.0.cos())
    }
    fn exponential(self) -> Self {
        F32(self.0.exp())
    }
    fn log_one_plus(self) -> Self {
        F32(self.0.ln_1p())
    }
    fn log_ten(self) -> Self {
        F32(self.0.log10())
    }
    fn hypotenuse(self, other: Self) -> Self {
        F32(self.0.hypot(other.0))
    }
    fn squared(self) -> Self {
        F32(self.0.powi(2))
    }
    fn lesser(self, other: Self) -> Self {
        F32(self.0.min(other.0))
    }
    fn greater(self, other: Self) -> Self {
        F32(self.0.max(other.0))
    }
    fn held_between(self, low: Self, high: Self) -> Self {
        F32(self.0.clamp(low.0, high.0))
    }
    fn is_undefined(self) -> bool {
        self.0.is_nan()
    }
    fn above(self, other: Self) -> bool {
        self.0 > other.0
    }
    fn nearest_count(self) -> usize {
        self.0.round() as usize
    }
    fn nearest_short(self) -> i16 {
        self.0.round() as i16
    }
}

struct Fft {
    forward: Arc<dyn RealToComplex<f32>>,
    inverse: Arc<dyn ComplexToReal<f32>>,
}

impl Fft {
    fn new(n: usize) -> Self {
        let mut planner = RealFftPlanner::<f32>::new();
        Fft { forward: planner.plan_fft_forward(n), inverse: planner.plan_fft_inverse(n) }
    }
}

impl Fourier<F32> for Fft {
    fn forward(&self, frame: &[F32]) -> Vec<Complex<F32>> {
        let mut input: Vec<f32> = frame.iter().map(|x| x.0).collect();
        let mut output = self.forward.make_output_vec();
        self.forward.process(&mut input, &mut output).unwrap();
        output.iter().map(|z| Complex { re: F32(z.re), im: F32(z.im) }).collect()
    }
    fn inverse(&self, spectrum: &[Complex<F32>]) -> Vec<F32> {
        let mut input: Vec<Complex32> =
            spectrum.iter().map(|z| Complex32::new(z.re.0, z.im.0)).collect();
        let mut output = self.inverse.make_output_vec();
        match self.inverse.process(&mut input, &mut output) {
            Err(realfft::FftError::InputValues(_, _)) => (),
            Err(e) => panic!("{e:?}"),
            Ok(()) => (),
        }
        output.into_iter().map(F32).collect()
    }
}

fn wrap(xs: &[f32]) -> Vec<F32> {
    xs.iter().map(|&x| F32(x)).collect()
}

fn bare(xs: &[F32]) -> Vec<f32> {
    xs.iter().map(|x| x.0).collect()
}

fn tone(n: usize) -> Vec<f32> {
    (0..n).map(|i| (i as f32 * 0.37).sin() * 0.5 + (i as f32 * 0.011).cos() * 0.25).collect()
}

fn near(a: f32, b: f32, tolerance: f32) -> bool {
    (a - b).abs() <= tolerance
}

#[derive(Clone, Debug, PartialEq)]
struct Cache {
    shape: Vec<usize>,
    age: usize,
}

/// Answers with the spectrum that it is given, until it fails in one way or the other.
#[derive(Clone)]
struct Echo {
    runs: Rc<Cell<usize>>,
    fails_at: usize,
    unreadable_at: usize,
}

impl Echo {
    fn new() -> Self {
        Echo { runs: Rc::new(Cell::new(0)), fails_at: usize::MAX, unreadable_at: usize::MAX }
    }
}

impl Model<F32> for Echo {
    type Cache = Cache;
    type Error = String;

    fn zero_cache(&self, shape: &[usize]) -> Cache {
        Cache { shape: shape.to_vec(), age: 0 }
    }

    fn run(
        self,
        shape: &[usize],
        mix: &[F32],
        conv: &Cache,
        tra: &Cache,
        inter: &Cache,
    ) -> (Self, Result<Answer<F32, Cache, String>, String>) {
        assert_eq!(shape, [1, 257, 1, 2]);
        assert_eq!(mix.len(), 514);
        let run = self.runs.get();
        self.runs.set(run + 1);
        if run == self.fails_at {
            return (self, Err(format!("run {run} failed")));
        }
        let older = |c: &Cache, by: usize| Cache { shape: c.shape.clone(), age: c.age + by };
        let answer = Answer {
            enhanced: if run == self.unreadable_at {
                Err(format!("run {run} unreadable"))
            } else {
                Ok(mix.to_vec())
            },
            conv: older(conv, 1),
            tra: older(tra, 10),
            inter: older(inter, 100),
        };
        (self, Ok(answer))
    }
}

/// Plays one hop with a session of the model.
fn play(
    s: &mut GtcrnStream<F32, Cache>,
    hop: &[f32],
    model: &Echo,
    fft: &Fft,
) -> Result<[F32; HOP], String> {
    let before = model.runs.get();
    let (_, result) = s.process_frame(&wrap(hop), model.clone(), fft);
    assert_eq!(model.runs.get(), before + 1);
    result
}

fn ages(s: &GtcrnStream<F32, Cache>) -> (usize, usize, usize) {
    (s.conv_cache.age, s.tra_cache.age, s.inter_cache.age)
}

// The transform.

#[test]
fn sizes_fit_together() {
    assert_eq!((SAMPLE_RATE, N_FFT, HOP, N_FREQ), (16000, 512, 256, 257));
    assert_eq!(conv_cache_shape(), [2, 1, 16, 16, 33]);
    assert_eq!(tra_cache_shape(), [2, 3, 1, 1, 16]);
    assert_eq!(inter_cache_shape(), [2, 1, 33, 16]);
}

#[test]
fn window_is_the_root_of_a_hann_window() {
    let w = sqrt_hann::<F32>(N_FFT);
    assert_eq!(w.len(), N_FFT);
    for i in 0..N_FFT {
        let h = 0.5 - 0.5 * (2.0 * std::f32::consts::PI * i as f32 / N_FFT as f32).cos();
        assert_eq!(w[i].0, h.sqrt());
    }
    for i in 0..HOP {
        let (a, b) = (w[i].0, w[i + HOP].0);
        assert!(near(a * a + b * b, 1.0, 1e-6));
    }
    assert!(sqrt_hann::<F32>(0).is_empty());
}

#[test]
fn transform_goes_through_the_window_both_ways() {
    let stft = Stft::<F32>::new();
    let fft = Fft::new(N_FFT);
    let x = tone(N_FFT);
    let spectrum = stft.forward(&wrap(&x), &fft);
    assert_eq!(spectrum.len(), N_FREQ);
    let seen: Vec<F32> = (0..N_FFT).map(|i| F32(x[i] * stft.window[i].0)).collect();
    let expected = fft.forward(&seen);
    for f in 0..N_FREQ {
        assert_eq!((spectrum[f].re, spectrum[f].im), (expected[f].re, expected[f].im));
    }
    let frame = stft.inverse(&spectrum, &fft);
    let raw = fft.inverse(&spectrum);
    for i in 0..N_FFT {
        assert_eq!(frame[i].0, raw[i].0 / 512.0 * stft.window[i].0);
        let w = stft.window[i].0;
        assert!(near(frame[i].0, x[i] * w * w, 1e-5));
    }
}

#[test]
fn spectra_lie_flat_as_pairs() {
    let spectrum: Vec<Complex<F32>> =
        (0..N_FREQ).map(|f| Complex { re: F32(f as f32), im: F32(-1.0 - f as f32) }).collect();
    let flat = interleave(&spectrum);
    assert_eq!(flat.len(), 2 * N_FREQ);
    assert_eq!(bare(&flat[..4]), vec![0.0, -1.0, 1.0, -2.0]);
    let back = real_ended(&flat);
    assert_eq!(back.len(), N_FREQ);
    for f in 0..N_FREQ {
        let im = if f == 0 || f == N_FREQ - 1 { 0.0 } else { -1.0 - f as f32 };
        assert_eq!((back[f].re.0, back[f].im.0), (f as f32, im));
    }
}

// Streams.

#[test]
fn stream_starts_silent() {
    let s: GtcrnStream<F32, Cache> = GtcrnStream::new(&Echo::new());
    assert!(s.ana_buf.iter().all(|x| x.0 == 0.0));
    assert!(s.ola.iter().all(|x| x.0 == 0.0));
    assert_eq!(s.conv_cache.shape, vec![2, 1, 16, 16, 33]);
    assert_eq!(s.tra_cache.shape, vec![2, 3, 1, 1, 16]);
    assert_eq!(s.inter_cache.shape, vec![2, 1, 33, 16]);
    assert_eq!(ages(&s), (0, 0, 0));
}

#[test]
fn loading_ends_with_a_silent_stream() {
    let mut loader = Loader::start(Ok(tract_onnx::pb::ModelProto::default())).unwrap();
    while let Next::Do(_) = loader.advance(Ok(())) {}
    assert!(loader.ready);
    let s: GtcrnStream<F32, Cache> = loader.stream(&Echo::new());
    assert!(s.ana_buf.iter().chain(s.ola.iter()).all(|x| x.0 == 0.0));
    assert_eq!(ages(&s), (0, 0, 0));
}

#[test]
fn output_is_one_hop_behind() {
    let model = Echo::new();
    let fft = Fft::new(N_FFT);
    let mut s = GtcrnStream::new(&model);
    let x = tone(4 * HOP);
    let mut y: Vec<f32> = Vec::new();
    for chunk in x.chunks(HOP) {
        y.extend(bare(&play(&mut s, chunk, &model, &fft).unwrap()));
    }
    for i in 0..3 * HOP {
        assert!(near(y[i + HOP], x[i], 1e-5));
    }
}

#[test]
fn stream_keeps_the_latest_samples() {
    let model = Echo::new();
    let fft = Fft::new(N_FFT);
    let mut s = GtcrnStream::new(&model);
    let x = tone(3 * HOP);
    play(&mut s, &x[..HOP], &model, &fft).unwrap();
    assert_eq!(bare(&s.ana_buf[..HOP]), vec![0.0; HOP]);
    assert_eq!(bare(&s.ana_buf[HOP..]), x[..HOP].to_vec());
    play(&mut s, &x[HOP..2 * HOP], &model, &fft).unwrap();
    play(&mut s, &x[2 * HOP..], &model, &fft).unwrap();
    assert_eq!(bare(&s.ana_buf), x[HOP..].to_vec());
}

#[test]
fn output_joins_halves_of_frames() {
    let model = Echo::new();
    let fft = Fft::new(N_FFT);
    let mut s = GtcrnStream::new(&model);
    let x = tone(2 * HOP);
    play(&mut s, &x[..HOP], &model, &fft).unwrap();
    let left_over = s.ola;
    let out = play(&mut s, &x[HOP..], &model, &fft).unwrap();
    let spectrum = real_ended(&interleave(&s.stft.forward(&wrap(&x), &fft)));
    let frame = s.stft.inverse(&spectrum, &fft);
    for i in 0..HOP {
        assert_eq!(out[i].0, frame[i].0 + left_over[i].0);
        assert_eq!(s.ola[i], frame[i + HOP]);
    }
}

#[test]
fn caches_come_back_with_the_next_hop() {
    let model = Echo::new();
    let fft = Fft::new(N_FFT);
    let mut s = GtcrnStream::new(&model);
    for _ in 0..3 {
        play(&mut s, &tone(HOP), &model, &fft).unwrap();
    }
    assert_eq!(ages(&s), (3, 30, 300));
    assert_eq!(s.tra_cache.shape, vec![2, 3, 1, 1, 16]);
}

#[test]
fn failed_run_moves_only_the_signal() {
    let model = Echo { fails_at: 1, ..Echo::new() };
    let fft = Fft::new(N_FFT);
    let mut s = GtcrnStream::new(&model);
    let x = tone(2 * HOP);
    play(&mut s, &x[..HOP], &model, &fft).unwrap();
    let ola = s.ola;
    let result = play(&mut s, &x[HOP..], &model, &fft);
    assert_eq!(result, Err("run 1 failed".to_string()));
    assert_eq!(bare(&s.ana_buf), x);
    assert_eq!(s.ola, ola);
    assert_eq!(ages(&s), (1, 10, 100));
}

#[test]
fn unreadable_answer_still_moves_the_caches() {
    let model = Echo { unreadable_at: 1, ..Echo::new() };
    let fft = Fft::new(N_FFT);
    let mut s = GtcrnStream::new(&model);
    let x = tone(2 * HOP);
    play(&mut s, &x[..HOP], &model, &fft).unwrap();
    let ola = s.ola;
    let result = play(&mut s, &x[HOP..], &model, &fft);
    assert_eq!(result, Err("run 1 unreadable".to_string()));
    assert_eq!(s.ola, ola);
    assert_eq!(ages(&s), (2, 20, 200));
}

#[test]
fn answer_is_settled_without_a_model() {
    let fft = Fft::new(N_FFT);
    let mut s: GtcrnStream<F32, Cache> = GtcrnStream::new(&Echo::new());
    s.hear(&wrap(&tone(HOP)));
    let mix = s.mix(&fft);
    assert_eq!(mix.len(), 2 * N_FREQ);
    let cache = |age: usize| Cache { shape: Vec::new(), age };
    let answer: Answer<F32, Cache, String> =
        Answer { enhanced: Ok(mix), conv: cache(7), tra: cache(8), inter: cache(9) };
    let out = s.settle(answer, &fft).unwrap();
    assert_eq!(ages(&s), (7, 8, 9));
    assert!(out.iter().all(|x| near(x.0, 0.0, 1e-6)));
    assert!(near(s.ola[0].0, tone(1)[0], 1e-5));
}

#[test]
fn imaginary_ends_are_not_read() {
    let fft = Fft::new(N_FFT);
    let mut a: GtcrnStream<F32, Cache> = GtcrnStream::new(&Echo::new());
    let mut b: GtcrnStream<F32, Cache> = GtcrnStream::new(&Echo::new());
    a.hear(&wrap(&tone(HOP)));
    b.hear(&wrap(&tone(HOP)));
    let mix = a.mix(&fft);
    let mut other = mix.clone();
    other[1] = F32(17.0);
    other[513] = F32(-3.0);
    let answer = |flat: Vec<F32>| -> Answer<F32, Cache, String> {
        let cache = Cache { shape: Vec::new(), age: 1 };
        Answer { enhanced: Ok(flat), conv: cache.clone(), tra: cache.clone(), inter: cache }
    };
    assert_eq!(a.settle(answer(mix), &fft), b.settle(answer(other), &fft));
    assert_eq!(a.ola, b.ola);
}

#[test]
fn caches_outlast_a_failed_run() {
    let model = Echo { fails_at: 1, ..Echo::new() };
    let fft = Fft::new(N_FFT);
    let mut s = GtcrnStream::new(&model);
    for k in 0..4 {
        let result = play(&mut s, &tone(HOP), &model, &fft);
        assert_eq!(result.is_ok(), k != 1);
    }
    // Three runs were answered, each with the caches of the last one that was.
    assert_eq!(ages(&s), (3, 30, 300));
}

#[test]
fn reset_stream_is_as_good_as_new() {
    let model = Echo::new();
    let fft = Fft::new(N_FFT);
    let mut s = GtcrnStream::new(&model);
    let first = play(&mut s, &tone(HOP), &model, &fft).unwrap();
    play(&mut s, &tone(HOP), &model, &fft).unwrap();
    s.reset(&model);
    let fresh: GtcrnStream<F32, Cache> = GtcrnStream::new(&model);
    assert_eq!(s.ana_buf, fresh.ana_buf);
    assert_eq!(s.ola, fresh.ola);
    assert_eq!(s.conv_cache, fresh.conv_cache);
    assert_eq!(s.tra_cache, fresh.tra_cache);
    assert_eq!(s.inter_cache, fresh.inter_cache);
    assert_eq!(play(&mut s, &tone(HOP), &model, &fft).unwrap(), first);
}

// Whole signals.

#[test]
fn enhanced_signal_is_as_long_and_in_time() {
    let fft = Fft::new(N_FFT);
    for n in [0, 1, 255, 256, 257, 1000] {
        let model = Echo::new();
        let x = tone(n);
        let y = enhance(&wrap(&x), model.clone(), &fft).unwrap();
        assert_eq!(y.len(), n);
        assert_eq!(model.runs.get(), frame_count(n));
        for i in 0..n {
            assert!(near(y[i].0, x[i], 1e-5));
        }
    }
}

#[test]
fn enhancing_stops_at_the_first_failure() {
    let fft = Fft::new(N_FFT);
    let model = Echo { fails_at: 2, ..Echo::new() };
    let result = enhance(&wrap(&tone(2 * HOP)), model.clone(), &fft);
    assert_eq!(result, Err("run 2 failed".to_string()));
    assert_eq!(model.runs.get(), 3);
    let model = Echo { fails_at: 0, ..Echo::new() };
    assert_eq!(enhance(&wrap(&tone(700)), model, &fft), Err("run 0 failed".to_string()));
    let model = Echo { unreadable_at: 1, ..Echo::new() };
    assert_eq!(enhance(&wrap(&tone(700)), model, &fft), Err("run 1 unreadable".to_string()));
}

#[test]
fn silence_behind_a_signal_changes_nothing() {
    let fft = Fft::new(N_FFT);
    let mut x = tone(700);
    let short = enhance(&wrap(&x), Echo::new(), &fft).unwrap();
    x.extend_from_slice(&[0.0; 900]);
    let long = enhance(&wrap(&x), Echo::new(), &fft).unwrap();
    assert_eq!(long.len(), 1600);
    assert_eq!(long[..700], short[..]);
}

#[test]
fn hops_are_filled_up_with_silence() {
    let x = wrap(&tone(300));
    assert_eq!(next_hop(&x, 0)[..], x[..HOP]);
    let last = next_hop(&x, HOP);
    assert_eq!(last[..44], x[HOP..]);
    assert!(last[44..].iter().all(|v| v.0 == 0.0));
    assert!(next_hop(&x, 1000).iter().all(|v| v.0 == 0.0));
}

#[test]
fn delay_is_made_up_for() {
    let x = wrap(&tone(300));
    assert_eq!(without_delay(&x, 40), x[HOP..HOP + 40].to_vec());
    let longer = without_delay(&x, 50);
    assert_eq!(longer[..44], x[HOP..]);
    assert!(longer[44..].iter().all(|v| v.0 == 0.0));
    assert_eq!(bare(&without_delay(&x[..10], 3)), vec![0.0, 0.0, 0.0]);
}

// Sound files.

#[test]
fn only_one_sample_rate_will_do() {
    assert_eq!(check_rate(16000), Ok(()));
    assert_eq!(check_rate(48000), Err(WavError::WrongRate { expected: 16000, found: 48000 }));
}

#[test]
fn full_scale_is_a_power_of_two() {
    assert_eq!(full_scale(1), 1);
    assert_eq!(full_scale(16), 32768);
    assert_eq!(full_scale(24), 8388608);
    assert_eq!(full_scale(32), 2147483648);
    assert_eq!(full_scale(63), 1i64 << 62);
    assert_eq!(full_scale(64), 1i64 << 63);
}

#[test]
fn integer_samples_are_measured_against_full_scale() {
    assert_eq!(bare(&decode::<F32>(&[0, 16384, -32768, 32767], 16)), vec![
        0.0,
        0.5,
        -1.0,
        32767.0 / 32768.0
    ]);
    assert_eq!(bare(&decode::<F32>(&[i32::MAX], 32)), vec![i32::MAX as f32 / 2147483648.0]);
}

#[test]
fn channels_are_mixed_by_their_mean() {
    let x = wrap(&[1.0, 3.0, 5.0, 7.0, 9.0]);
    assert_eq!(downmix(x.clone(), 1), x);
    assert_eq!(downmix(x.clone(), 0), x);
    // What is left at the end is divided by the number of channels all the same.
    assert_eq!(bare(&downmix(x.clone(), 2)), vec![2.0, 6.0, 4.5]);
    assert_eq!(bare(&downmix(x, 5)), vec![5.0]);
    assert!(downmix::<F32>(Vec::new(), 2).is_empty());
    // The sum starts from the first sample, so it keeps the sign of zeros.
    let mixed = downmix(wrap(&[-0.0, -0.0, 0.0, -0.0]), 2);
    assert!(mixed[0].0.is_sign_negative() && mixed[1].0.is_sign_positive());
}

#[test]
fn hops_are_counted() {
    assert_eq!(frame_count(0), 1);
    assert_eq!(frame_count(1), 2);
    assert_eq!(frame_count(256), 2);
    assert_eq!(frame_count(257), 3);
}

#[test]
fn samples_are_rounded_to_sixteen_bits() {
    assert_eq!(quantize(F32(0.0)), 0);
    assert_eq!(quantize(F32(1.0)), 32767);
    assert_eq!(quantize(F32(-1.0)), -32767);
    assert_eq!(quantize(F32(2.5)), 32767);
    assert_eq!(quantize(F32(-7.0)), -32767);
    assert_eq!(quantize(F32(0.5)), (0.5f32 * 32767.0).round() as i16);
    assert_eq!(encode(&wrap(&[0.25, -0.25, f32::NAN])), vec![8192, -8192, 0]);
}
