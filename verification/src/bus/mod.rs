//! Bookkeeping for the subscribers of a bus.

pub mod dispatchers;

pub use dispatchers::{prune_dispatchers, register_dispatcher};
