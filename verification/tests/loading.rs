//! Loading a model, step by step.
use speech_enhance::load::{LoadError, Loader, Next, Step};
use speech_enhance::stream::GtcrnStream;

type Stream = GtcrnStream<Nothing, ()>;

/// A sample type that nothing is computed with here.
#[derive(Clone, Copy)]
struct Nothing;

impl speech_enhance::sample::Sample for Nothing {
    fn zero() -> Self {
        Nothing
    }
    fn one() -> Self {
        Nothing
    }
    fn decimal(_: i64, _: u32) -> Self {
        Nothing
    }
    fn from_count(_: usize) -> Self {
        Nothing
    }
    fn from_int(_: i64) -> Self {
        Nothing
    }
    fn pi() -> Self {
        Nothing
    }
    fn lowest() -> Self {
        Nothing
    }
    fn highest() -> Self {
        Nothing
    }
    fn plus(self, _: Self) -> Self {
        self
    }
    fn minus(self, _: Self) -> Self {
        self
    }
    fn times(self, _: Self) -> Self {
        self
    }
    fn over(self, _: Self) -> Self {
        self
    }
    fn magnitude(self) -> Self {
        self
    }
    fn square_root(self) -> Self {
        self
    }
    fn sine(self) -> Self {
        self
    }
    fn cosine(self) -> Self {
        self
    }
    fn exponential(self) -> Self {
        self
    }
    fn log_one_plus(self) -> Self {
        self
    }
    fn log_ten(self) -> Self {
        self
    }
    fn hypotenuse(self, _: Self) -> Self {
        self
    }
    fn squared(self) -> Self {
        self
    }
    fn lesser(self, _: Self) -> Self {
        self
    }
    fn greater(self, _: Self) -> Self {
        self
    }
    fn held_between(self, _: Self, _: Self) -> Self {
        self
    }
    fn is_undefined(self) -> bool {
        false
    }
    fn above(self, _: Self) -> bool {
        false
    }
    fn nearest_count(self) -> usize {
        0
    }
    fn nearest_short(self) -> i16 {
        0
    }
}

fn loader() -> Loader {
    Loader::start(Ok(tract_onnx::pb::ModelProto::default())).unwrap()
}

#[test]
fn bytes_are_decoded() {
    // Format version 8, and a producer named "me".
    let bytes = [0x08, 0x08, 0x12, 0x02, b'm', b'e'];
    let loader = Stream::from_onnx_bytes(&bytes).unwrap();
    assert_eq!(loader.file.ir_version, 8);
    assert_eq!(loader.file.producer_name, "me");
    assert_eq!(loader.pending, Some(Step::Translate));
    assert!(!loader.ready);
}

#[test]
fn bytes_that_are_no_file_are_refused() {
    // A field that ends before its length.
    match Stream::from_onnx_bytes(&[0x12, 0x7f, b'm']) {
        Err(e) => {
            assert_eq!(e.step, Step::Decode);
            assert_eq!(e.step.failure(), "Failed to parse GTCRN ONNX model");
            assert!(!e.cause.is_empty());
        }
        Ok(_) => panic!("the bytes encode no file"),
    }
}

#[test]
fn steps_follow_each_other() {
    let mut loader = loader();
    let mut seen = vec![loader.pending.unwrap()];
    loop {
        match loader.advance(Ok(())) {
            Next::Do(step) => seen.push(step),
            Next::Ready => break,
            Next::Fail(e) => panic!("{e:?}"),
        }
    }
    assert_eq!(seen, vec![
        Step::Translate,
        Step::Type,
        Step::Declutter,
        Step::Rewrite,
        Step::Optimize,
        Step::MakeRunnable,
        Step::Spawn,
    ]);
    assert!(loader.ready && loader.pending.is_none());
}

#[test]
fn first_failure_ends_the_loading() {
    let mut loader = loader();
    assert!(matches!(loader.advance(Ok(())), Next::Do(Step::Type)));
    match loader.advance(Err("no types".to_string())) {
        Next::Fail(e) => {
            assert_eq!(e, LoadError { step: Step::Type, cause: "no types".to_string() });
            assert_eq!(e.step.failure(), "Failed to type GTCRN model");
        }
        _ => panic!("the step failed"),
    }
    assert!(!loader.ready && loader.pending.is_none());
}

#[test]
fn every_step_says_what_failed() {
    let texts: Vec<&str> = [
        Step::Decode,
        Step::Translate,
        Step::Declutter,
        Step::Rewrite,
        Step::Optimize,
        Step::MakeRunnable,
        Step::Spawn,
    ]
    .iter()
    .map(|step| step.failure())
    .collect();
    assert_eq!(texts, vec![
        "Failed to parse GTCRN ONNX model",
        "Failed to parse GTCRN ONNX model",
        "Failed to declutter GTCRN model",
        "Failed to rewrite ScatterNd nodes",
        "Failed to optimize GTCRN model",
        "Failed to make GTCRN model runnable",
        "Failed to spawn GTCRN session state",
    ]);
}

#[test]
fn decoding_that_failed_is_passed_on() {
    match Loader::start(Err("cut short".to_string())) {
        Err(e) => assert_eq!(e, LoadError { step: Step::Decode, cause: "cut short".to_string() }),
        Ok(_) => panic!("there is no file"),
    }
}
