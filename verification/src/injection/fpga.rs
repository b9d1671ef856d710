//! The FPGA that sends packets autonomously.

use vstd::prelude::*;

use crate::wire::TcpSeqNumber;

verus! {

/// The connection state that the FPGA keeps.
#[derive(Debug, Clone, Copy)]
pub struct FpgaInternalState {
    pub seq_num: TcpSeqNumber,
    pub ack_num: TcpSeqNumber,
}

/// The state of the FPGA.
#[derive(Debug, Clone, Copy)]
pub enum FpgaState {
    /// The FPGA is writing details of an autonomously sent packet to DMA memory.
    AutonomouslyWriting {
        internal_state: FpgaInternalState,
        write_data: u8,
        write_address: usize,
    },
    Idle,
}

/// What the FPGA does in one step.
#[derive(Debug, Clone, Copy)]
pub enum FpgaAction {
    StartWrite { seq: i32, ack: i32, data: u8, addr: usize },
    StayIdle,
    StopWriting,
    ContinueWriting,
}

impl FpgaAction {
    /// The write to DMA memory that the action starts, if it starts one.
    pub open spec fn write(self) -> Option<(usize, u8)> {
        match self {
            FpgaAction::StartWrite { seq, ack, data, addr } => Some((addr, data)),
            _ => None,
        }
    }
}

impl FpgaState {
    /// The state after an action. A new write can start at any time; an FPGA that writes goes on
    /// only if it is told to.
    pub open spec fn step(self, action: FpgaAction) -> FpgaState {
        match action {
            FpgaAction::StartWrite { seq, ack, data, addr } => FpgaState::AutonomouslyWriting {
                internal_state: FpgaInternalState {
                    seq_num: TcpSeqNumber(seq),
                    ack_num: TcpSeqNumber(ack),
                },
                write_data: data,
                write_address: addr,
            },
            FpgaAction::ContinueWriting => self,
            FpgaAction::StayIdle => FpgaState::Idle,
            FpgaAction::StopWriting => FpgaState::Idle,
        }
    }

    /// Returns the state after an action.
    pub fn advance(&self, action: &FpgaAction) -> (next: FpgaState)
        ensures
            next == self.step(*action),
    {
        match (self, action) {
            (FpgaState::Idle, FpgaAction::StartWrite { seq, ack, data, addr }) => {
                FpgaState::AutonomouslyWriting {
                    internal_state: FpgaInternalState {
                        seq_num: TcpSeqNumber(*seq),
                        ack_num: TcpSeqNumber(*ack),
                    },
                    write_data: *data,
                    write_address: *addr,
                }
            },
            (FpgaState::Idle, FpgaAction::StayIdle) => FpgaState::Idle,
            (FpgaState::Idle, FpgaAction::StopWriting) => FpgaState::Idle,
            (FpgaState::Idle, FpgaAction::ContinueWriting) => FpgaState::Idle,
            (FpgaState::AutonomouslyWriting { .. }, FpgaAction::ContinueWriting) => *self,
            (FpgaState::AutonomouslyWriting { .. }, FpgaAction::StopWriting) => FpgaState::Idle,
            // An FPGA that is to be idle stops.
            (FpgaState::AutonomouslyWriting { .. }, FpgaAction::StayIdle) => FpgaState::Idle,
            // A new write can start immediately.
            (
                FpgaState::AutonomouslyWriting { .. },
                FpgaAction::StartWrite { seq, ack, data, addr },
            ) => {
                FpgaState::AutonomouslyWriting {
                    internal_state: FpgaInternalState {
                        seq_num: TcpSeqNumber(*seq),
                        ack_num: TcpSeqNumber(*ack),
                    },
                    write_data: *data,
                    write_address: *addr,
                }
            },
        }
    }
}

} // verus!
