//! What the operations of this crate are for, where samples are exact numbers.
//!
//! The contracts of this crate say which operations are applied to which values. The laws here say
//! what comes of that where the operations are those of arithmetic: they hold a result against
//! what it must satisfy, in terms of what was given and of nothing else.
pub mod averages;
pub mod bins;
pub mod by_band;
pub mod enhancing;
pub mod feeding;
pub mod hops;
pub mod layout;
pub mod loading;
pub mod middle;
pub mod model_hops;
pub mod numbers;
pub mod replacing;
pub mod scattering;
pub mod sound;
pub mod statistics;
pub mod suppression;
pub mod windows;
