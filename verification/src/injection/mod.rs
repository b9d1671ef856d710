//! TCP packet injection by an FPGA.

pub mod dma;
pub mod fpga;
pub mod pipe;
pub mod step_laws;
pub mod trace;
