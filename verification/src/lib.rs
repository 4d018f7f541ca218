//! Signal processing for real-time speech enhancement.
//!
//! Sound comes in a hop at a time. It is joined to what came before, seen through a window and
//! turned into a spectrum; a model says what to make of the spectrum; and the result is turned
//! back into sound and added to what the windows before it left over. This crate holds all that
//! happens around the model, and what has to be done to a model's graph so that it runs fast.
//!
//! * [`sample`], [`complex`] and [`fourier`] say what is computed with. The crate does not fix a
//!   number format or a transform: it is written over traits that promise nothing, and its
//!   contracts say which operations are applied to which values.
//! * [`erb`] lays bands over the bins of a spectrum, [`bands`], [`norm`] and [`filter`] work on
//!   the bins by bands or one by one.
//! * [`state`] and [`features`] are the deep filtering stream: analysis, synthesis, and the
//!   features that its model is fed with.
//! * [`stream`] is the stream around a recurrent model, and [`wav`] what lies between it and
//!   sound files.
//! * [`laws`] is what comes of it all where samples are exact numbers.
//! * [`replay`] is what follows where every operation has one value.
//! * [`load`] turns the bytes of a file into a model that is ready to run, step by step.
//! * [`scatter`] and [`rewrite`] replace the scatter operations of a model by copies of blocks,
//!   reading the engine's tensors through [`tensor`].
//! * [`stats`], [`median`] and [`order`] are statistics of a run of values.
pub mod bands;
pub mod complex;
pub mod erb;
pub mod features;
pub mod filter;
pub mod fourier;
pub mod laws;
pub mod load;
pub mod median;
pub mod norm;
pub mod order;
pub mod replay;
pub mod rewrite;
pub mod sample;
pub mod scatter;
pub mod state;
pub mod stats;
pub mod stream;
pub mod tensor;
pub mod wav;
