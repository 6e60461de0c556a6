//! Two least-recently-used caches with one behaviour, and a simpler
//! single-type variant, all verified against the same abstract model.

pub mod cloning;
pub mod model;
pub mod dll;
pub mod map;
pub mod basic;
