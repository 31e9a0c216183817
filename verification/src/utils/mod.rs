//! Generic utility structures.

pub mod histogram;
pub mod ring_buffer;
pub mod ring_buffer_laws;

pub use histogram::BinEdges;
pub use ring_buffer::RingBuffer;
