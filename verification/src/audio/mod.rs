//! Sample buffers.

pub mod chunks;
pub mod ring_buffer;

pub use ring_buffer::RingBuffer;
