//! What one step of the FPGA, the pipe and the memory does.

use vstd::prelude::*;

use super::dma::{cell, received, stored};
use super::fpga::{FpgaAction, FpgaInternalState, FpgaState};
use super::pipe::{lemma_put_out, put_out, PipeAction, PipeState, PipeView};
use crate::wire::TcpSeqNumber;

verus! {

/// Only an action that starts a write carries one: its byte to its address.
pub proof fn law_carried_write(action: FpgaAction)
    ensures
        action matches FpgaAction::StartWrite { seq, ack, data, addr } ==> action.write() == Some(
            (addr, data),
        ),
        !(action is StartWrite) ==> action.write() is None,
{
}

/// After a step the FPGA shows the write that the step starts, or what it showed before if it is
/// told to go on, and else is idle.
pub proof fn law_fpga_step(state: FpgaState, action: FpgaAction)
    ensures
        match action {
            FpgaAction::StartWrite { seq, ack, data, addr } => state.step(action) == (
            FpgaState::AutonomouslyWriting {
                internal_state: FpgaInternalState {
                    seq_num: TcpSeqNumber(seq),
                    ack_num: TcpSeqNumber(ack),
                },
                write_data: data,
                write_address: addr,
            }),
            FpgaAction::ContinueWriting => state.step(action) == state,
            _ => state.step(action) is Idle,
        },
{
}

/// What a pipe is taken to hold is what its vector holds, and what it is taken to have put out is
/// its output.
pub proof fn law_pipe_holds(pipe: PipeState)
    ensures
        match pipe {
            PipeState::Transferring { output, in_transit } => {
                &&& pipe@ is Transferring
                &&& pipe@.in_transit() == in_transit@
                &&& pipe@.output() == output
                &&& pipe@ == (PipeView::Transferring { output, in_transit: in_transit@ })
            },
            PipeState::Empty => {
                &&& pipe@ is Empty
                &&& pipe@.in_transit().len() == 0
                &&& pipe@.output() is None
            },
        },
{
}

/// A pipe that is told to put a message out, and has one once what the FPGA starts has joined it,
/// puts one out to the address of the message at the index (or of the last one), namely the oldest
/// one to that address. All other messages stay, in their order.
pub proof fn law_put_out(
    before: Option<(usize, u8)>,
    in_transit: Seq<(usize, u8)>,
    action: FpgaAction,
    index: usize,
    queue: Seq<(usize, u8)>,
    chosen: int,
)
    requires
        queue == match action {
            FpgaAction::StartWrite { seq, ack, data, addr } => in_transit.push((addr, data)),
            _ => in_transit,
        },
        queue.len() > 0,
        index < queue.len() ==> chosen == index,
        index >= queue.len() ==> chosen == queue.len() - 1,
    ensures
        ({
            let pipe = PipeView::Transferring { output: before, in_transit };
            let after = pipe.step(action, (PipeAction::OutputPacket { index }));
            &&& after is Transferring
            &&& exists|at: int|
                {
                    &&& 0 <= at <= chosen
                    &&& after->output == Some(#[trigger] queue[at])
                    &&& queue[at].0 == queue[chosen].0
                    &&& forall|i: int| 0 <= i < at ==> queue[i].0 != queue[chosen].0
                    &&& after->in_transit == queue.take(at) + queue.skip(at + 1)
                }
        }),
{
    lemma_put_out(queue, index);
    let at = put_out(queue, index);
    let pipe = PipeView::Transferring { output: before, in_transit };
    let after = pipe.step(action, (PipeAction::OutputPacket { index }));
    assert(after->in_transit =~= queue.take(at) + queue.skip(at + 1));
    assert(after->output == Some(queue[at]));
}

/// Where no earlier message is to the same address, the message at the index (or the last one)
/// itself is put out.
pub proof fn law_put_out_at_index(
    before: Option<(usize, u8)>,
    in_transit: Seq<(usize, u8)>,
    index: usize,
)
    requires
        index < in_transit.len(),
        forall|i: int| 0 <= i < index ==> (#[trigger] in_transit[i]).0 != in_transit[index as int].0,
    ensures
        ({
            let pipe = PipeView::Transferring { output: before, in_transit };
            let after = pipe.step(
                FpgaAction::StayIdle,
                (PipeAction::OutputPacket { index }),
            );
            &&& after is Transferring
            &&& after->output == Some(in_transit[index as int])
            &&& after->in_transit == in_transit.remove(index as int)
        }),
{
    lemma_put_out(in_transit, index);
    let at = put_out(in_transit, index);
    if at < index {
        assert(in_transit[at].0 != in_transit[index as int].0);
    }
}

/// A pipe that is told nothing, or was empty, puts nothing out: what the FPGA starts joins what
/// was on its way, and with nothing on its way the pipe is empty.
pub proof fn law_no_output(pipe: PipeView, action: FpgaAction, pipe_action: PipeAction)
    requires
        pipe is Empty || pipe_action is NoAction,
    ensures
        ({
            let sent = match pipe {
                PipeView::Transferring { output, in_transit } => in_transit,
                PipeView::Empty => Seq::empty(),
            };
            let queue = match action {
                FpgaAction::StartWrite { seq, ack, data, addr } => sent.push((addr, data)),
                _ => sent,
            };
            pipe.step(action, pipe_action) == if queue.len() == 0 {
                PipeView::Empty
            } else {
                PipeView::Transferring { output: None, in_transit: queue }
            }
        }),
{
}

/// A pipe with nothing on its way that the FPGA sends nothing into is empty, whatever it is told.
pub proof fn law_runs_dry(pipe: PipeView, action: FpgaAction, pipe_action: PipeAction)
    requires
        !(action is StartWrite),
        match pipe {
            PipeView::Transferring { output, in_transit } => in_transit.len() == 0,
            PipeView::Empty => true,
        },
    ensures
        pipe.step(action, pipe_action) is Empty,
{
}

/// Two addresses stand for the same cell if and only if they leave the same remainder when divided
/// by the capacity, and an address within the memory stands for the cell it names.
pub proof fn law_cells(a: usize, b: usize, capacity: int)
    requires
        0 < capacity,
    ensures
        0 <= cell(a, capacity) < capacity,
        cell(a, capacity) == cell(b, capacity) <==> a as int % capacity == b as int % capacity,
        a < capacity ==> cell(a, capacity) == a,
{
    if a < capacity {
        vstd::arithmetic::div_mod::lemma_small_mod(a as nat, capacity as nat);
    }
}

/// Addresses wrap around as often as it takes: going any number of times around the memory leads
/// back to the same cell.
pub proof fn law_cells_repeat(a: usize, times: nat, capacity: int)
    requires
        a < capacity,
        a + times * capacity <= usize::MAX,
    ensures
        cell((a + times * capacity) as usize, capacity) == a,
{
    vstd::arithmetic::div_mod::lemma_fundamental_div_mod_converse(
        a + times * capacity,
        capacity,
        times as int,
        a as int,
    );
}

/// A write past the end, any number of times around the memory, is read back at the address within
/// it, and the other way round; no other cell changes, and the memory keeps its size.
pub proof fn law_write_wraps(memory: Seq<u8>, a: usize, times: nat, data: u8)
    requires
        a < memory.len(),
        a + times * memory.len() <= usize::MAX,
    ensures
        ({
            let around = (a + times * memory.len()) as usize;
            let capacity = memory.len() as int;
            &&& stored(memory, (around, data)).len() == memory.len()
            &&& stored(memory, (around, data)) == stored(memory, (a, data))
            &&& stored(memory, (around, data))[a as int] == data
            &&& stored(memory, (a, data))[cell(around, capacity)] == data
            &&& forall|i: int|
                0 <= i < memory.len() && i != a ==> #[trigger] stored(memory, (around, data))[i]
                    == memory[i]
        }),
{
    law_cells_repeat(a, times, memory.len() as int);
    law_cells(a, a, memory.len() as int);
}

/// The memory takes what was put out, if anything was.
pub proof fn law_received(memory: Seq<u8>, write: (usize, u8))
    ensures
        received(memory, None) == memory,
        received(memory, Some(write)) == stored(memory, write),
{
}

/// A write changes the cell of its address, and no other.
pub proof fn law_stored(memory: Seq<u8>, address: usize, data: u8)
    requires
        memory.len() > 0,
    ensures
        ({
            let at = address as int % memory.len() as int;
            let after = stored(memory, (address, data));
            &&& after.len() == memory.len()
            &&& 0 <= at < memory.len()
            &&& after[at] == data
            &&& forall|i: int| 0 <= i < memory.len() && i != at ==> #[trigger] after[i] == memory[i]
        }),
{
}

} // verus!
