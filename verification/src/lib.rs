//! Bounded-memory building blocks for real-time audio visualisation.
//!
//! Everything here runs in constant space once constructed: a ring buffer that
//! keeps the most recent values of a stream, the threshold table that sorts
//! amplitudes into histogram bins, and the slot list through which subscribers
//! of a bus come and go.

pub mod bus;
pub mod utils;
