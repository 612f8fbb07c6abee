//! The Gemma 4 model on a device: what is launched, in which order, and what is kept.

pub mod tape;
pub mod weights;
pub mod ops;
pub mod elements;
pub mod fit;
pub mod cache;
pub mod attend;
pub mod layers;
pub mod ple;
pub mod decode;
pub mod pick;
pub mod prompt;
pub mod prefill;
pub mod shelf;
pub mod load;
pub mod tally;
pub mod smoke;
pub mod effects;
pub mod naming;
pub mod safety;
