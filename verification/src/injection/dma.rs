//! The memory region that the FPGA writes to.

use vstd::prelude::*;

use super::pipe::PipeState;

verus! {

/// The cell of a region of `capacity` cells that an address stands for. Addresses wrap around.
pub open spec fn cell(address: usize, capacity: int) -> int {
    address as int % capacity
}

/// The memory after one write.
pub open spec fn stored(memory: Seq<u8>, write: (usize, u8)) -> Seq<u8> {
    memory.update(cell(write.0, memory.len() as int), write.1)
}

/// The memory after what the pipe put out, if anything, was written to it.
pub open spec fn received(memory: Seq<u8>, output: Option<(usize, u8)>) -> Seq<u8> {
    match output {
        Some(write) => stored(memory, write),
        None => memory,
    }
}

/// A region of DMA memory.
pub struct DmaRegion {
    buffer: Vec<u8>,
}

impl View for DmaRegion {
    type V = Seq<u8>;

    closed spec fn view(&self) -> Seq<u8> {
        self.buffer@
    }
}

impl DmaRegion {
    /// Creates a region of `capacity` cells, all zero.
    pub fn new(capacity: usize) -> (region: Self)
        ensures
            region@ == Seq::new(capacity as nat, |i: int| 0u8),
    {
        let region = DmaRegion { buffer: vec![0; capacity] };
        assert(region@ =~= Seq::new(capacity as nat, |i: int| 0u8));
        region
    }

    /// Writes a byte to an address. An address past the end wraps around.
    pub fn write(&mut self, address: usize, data: u8)
        requires
            old(self)@.len() > 0,
        ensures
            final(self)@ == stored(old(self)@, (address, data)),
    {
        let at: usize = address % self.buffer.len();
        self.buffer[at] = data;
    }

    /// Reads the byte at an address. An address past the end wraps around.
    pub fn read(&self, address: usize) -> (data: Option<u8>)
        requires
            self@.len() > 0,
        ensures
            data == Some(self@[cell(address, self@.len() as int)]),
    {
        let at: usize = address % self.buffer.len();
        Some(self.buffer[at])
    }

    /// Writes what the pipe put out, if anything.
    pub fn process_pipe_output(&mut self, pipe_state: &PipeState)
        requires
            pipe_state@.output() is Some ==> old(self)@.len() > 0,
        ensures
            final(self)@ == received(old(self)@, pipe_state@.output()),
    {
        if let PipeState::Transferring { output: Some((address, data)), in_transit: _ } = pipe_state {
            self.write(*address, *data);
        }
    }
}

} // verus!
