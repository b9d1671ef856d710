//! Transmit buffering for a TCP connection whose packets may also be sent, without asking the
//! host first, by an FPGA acting as the network card.
//!
//! * [`storage`] holds the ring buffer of unacknowledged payload and the masked buffer built on
//!   it, which remembers which bytes somebody else has already put on the wire.
//! * [`injection`] holds the path on which the FPGA tells the host what it has sent: the state
//!   of the FPGA, the pipe that carries its writes, and the memory region they end up in.
//! * [`wire`] holds what the two have in common with TCP itself.

pub mod injection;
pub mod storage;
pub mod wire;
