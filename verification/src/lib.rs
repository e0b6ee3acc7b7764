//! A versioned content store: every submitted text is recorded as a delta
//! of fixed-size blocks against the blocks already stored, and any recorded
//! version can be rebuilt exactly.

pub mod error;
pub mod config;
pub mod model;
pub mod block;
pub mod delta;
pub mod reconstruct;
pub mod store;
pub mod lemmas;
pub mod laws;
pub mod validate;
