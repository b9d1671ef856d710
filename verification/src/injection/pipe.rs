//! The pipe that carries the FPGA's writes to DMA memory.

use vstd::prelude::*;

use super::fpga::FpgaAction;

verus! {

/// The state of the pipe. Each message in it is a write of one byte to one address of the DMA
/// memory.
#[derive(Debug)]
pub enum PipeState {
    Transferring {
        /// The message that the last step put out.
        output: Option<(usize, u8)>,
        /// The messages on their way, in the order in which they were sent.
        in_transit: Vec<(usize, u8)>,
    },
    Empty,
}

/// What the pipe does in one step.
#[derive(Debug, Clone, Copy)]
pub enum PipeAction {
    /// Puts out the message at `index`, or the last one if there are not as many. No message
    /// overtakes an earlier one to the same address: where there is one, the oldest message to
    /// that address is put out instead.
    ///
    /// Messages to different addresses may overtake each other, also where the memory wraps the
    /// addresses around to one cell. Any two addresses share a cell in a memory of some size, and
    /// the pipe does not know the size of the memory behind it: a pipe that kept the order within
    /// each cell would have to keep all order, and `index` would mean nothing.
    OutputPacket { index: usize },
    NoAction,
}

/// The first position in `queue`, from `from` on, of a message to `address`, or the length if
/// there is none.
pub open spec fn first_to(queue: Seq<(usize, u8)>, address: usize, from: int) -> int
    decreases queue.len() - from,
{
    if from >= queue.len() {
        queue.len() as int
    } else if queue[from].0 == address {
        from
    } else {
        first_to(queue, address, from + 1)
    }
}

/// The position of the message that is put out of `queue` for `index`: the oldest one to the
/// address of the message at `index`, or of the last message if there are not as many.
pub open spec fn put_out(queue: Seq<(usize, u8)>, index: usize) -> int {
    let chosen = if index < queue.len() {
        index as int
    } else {
        queue.len() - 1
    };
    first_to(queue, queue[chosen].0, 0)
}

/// What [`first_to`] finds.
proof fn lemma_first_to(queue: Seq<(usize, u8)>, address: usize, from: int, known: int)
    requires
        0 <= from <= known < queue.len(),
        queue[known].0 == address,
    ensures
        from <= first_to(queue, address, from) <= known,
        queue[first_to(queue, address, from)].0 == address,
        forall|i: int| from <= i < first_to(queue, address, from) ==> queue[i].0 != address,
    decreases known - from,
{
    if queue[from].0 != address {
        lemma_first_to(queue, address, from + 1, known);
    }
}

/// The message that is put out is the oldest one to its address.
pub proof fn lemma_put_out(queue: Seq<(usize, u8)>, index: usize)
    requires
        queue.len() > 0,
    ensures
        ({
            let chosen = if index < queue.len() {
                index as int
            } else {
                queue.len() - 1
            };
            let at = put_out(queue, index);
            &&& 0 <= at <= chosen
            &&& queue[at].0 == queue[chosen].0
            &&& forall|i: int| 0 <= i < at ==> queue[i].0 != queue[at].0
        }),
{
    let chosen = if index < queue.len() {
        index as int
    } else {
        queue.len() - 1
    };
    lemma_first_to(queue, queue[chosen].0, 0, chosen);
}

/// The mathematical model of the pipe.
#[verifier::ext_equal]
pub enum PipeView {
    Transferring { output: Option<(usize, u8)>, in_transit: Seq<(usize, u8)> },
    Empty,
}

impl PipeView {
    /// The messages on their way, in the order in which they were sent.
    pub open spec fn in_transit(self) -> Seq<(usize, u8)> {
        match self {
            PipeView::Transferring { output, in_transit } => in_transit,
            PipeView::Empty => Seq::empty(),
        }
    }

    /// The message that the last step put out.
    pub open spec fn output(self) -> Option<(usize, u8)> {
        match self {
            PipeView::Transferring { output, in_transit } => output,
            PipeView::Empty => None,
        }
    }

    /// The messages on their way once the FPGA has done its part of a step.
    pub open spec fn queue(self, action: FpgaAction) -> Seq<(usize, u8)> {
        match action.write() {
            Some(write) => self.in_transit().push(write),
            None => self.in_transit(),
        }
    }

    /// The state after a step. What the FPGA writes goes in first; then the pipe may put a
    /// message out, unless it was empty before. A pipe with nothing on its way and nothing put
    /// out is empty.
    pub open spec fn step(self, fpga_action: FpgaAction, pipe_action: PipeAction) -> PipeView {
        let queue = self.queue(fpga_action);
        if queue.len() == 0 {
            PipeView::Empty
        } else {
            match pipe_action {
                PipeAction::OutputPacket { index } if self is Transferring => {
                    let at = put_out(queue, index);
                    PipeView::Transferring {
                        output: Some(queue[at]),
                        in_transit: queue.remove(at),
                    }
                },
                _ => PipeView::Transferring { output: None, in_transit: queue },
            }
        }
    }
}

impl View for PipeState {
    type V = PipeView;

    open spec fn view(&self) -> PipeView {
        match *self {
            PipeState::Transferring { output, in_transit } => PipeView::Transferring {
                output,
                in_transit: in_transit@,
            },
            PipeState::Empty => PipeView::Empty,
        }
    }
}

/// Copies a run of messages.
fn copy_messages(messages: &Vec<(usize, u8)>) -> (copy: Vec<(usize, u8)>)
    ensures
        copy@ == messages@,
{
    vstd::slice::slice_to_vec(messages.as_slice())
}

impl Clone for PipeState {
    fn clone(&self) -> (copy: Self)
        ensures
            copy@ == self@,
    {
        match self {
            PipeState::Transferring { output, in_transit } => PipeState::Transferring {
                output: *output,
                in_transit: copy_messages(in_transit),
            },
            PipeState::Empty => PipeState::Empty,
        }
    }
}

impl PipeState {
    /// Returns the state after a step.
    pub fn advance(&self, fpga_action: &FpgaAction, pipe_action: &PipeAction) -> (next: PipeState)
        ensures
            next@ == self@.step(*fpga_action, *pipe_action),
    {
        match self {
            PipeState::Empty => {
                match fpga_action {
                    FpgaAction::StartWrite { seq, ack, data, addr } => {
                        let mut in_transit: Vec<(usize, u8)> = Vec::new();
                        in_transit.push((*addr, *data));
                        PipeState::Transferring { output: None, in_transit }
                    },
                    _ => PipeState::Empty,
                }
            },
            PipeState::Transferring { output: _, in_transit } => {
                let mut queue = copy_messages(in_transit);
                if let FpgaAction::StartWrite { seq, ack, data, addr } = fpga_action {
                    queue.push((*addr, *data));
                }
                if queue.len() == 0 {
                    return PipeState::Empty;
                }
                let output: Option<(usize, u8)> = match pipe_action {
                    PipeAction::OutputPacket { index } => {
                        let chosen: usize = if *index < queue.len() {
                            *index
                        } else {
                            queue.len() - 1
                        };
                        let address = queue[chosen].0;
                        let mut at: usize = 0;
                        while queue[at].0 != address
                            invariant
                                at <= chosen < queue@.len(),
                                queue@[chosen as int].0 == address,
                                first_to(queue@, address, 0) == first_to(
                                    queue@,
                                    address,
                                    at as int,
                                ),
                            decreases chosen - at,
                        {
                            at = at + 1;
                        }
                        Some(queue.remove(at))
                    },
                    PipeAction::NoAction => None,
                };
                PipeState::Transferring { output, in_transit: queue }
            },
        }
    }
}

} // verus!
