//! Data sets.

pub mod mnist;
