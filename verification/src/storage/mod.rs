//! Byte storage for socket buffers.

pub mod debug_laws;
pub mod debug_text;
pub mod managed;
pub mod masked_laws;
pub mod masked_ring_buffer;
pub mod masked_state;
pub mod ring_buffer;
pub mod ring_laws;
pub mod ring_state;
mod slice_ops;
pub mod transmit_laws;
