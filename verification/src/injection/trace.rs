//! What holds of the FPGA, the pipe and the memory over any run of steps.

use vstd::multiset::Multiset;
use vstd::prelude::*;

use super::dma::{cell, received, stored};
use super::fpga::{FpgaAction, FpgaState};
use super::pipe::{lemma_put_out, PipeAction, PipeView};

verus! {

/// What the FPGA and the pipe do in one step.
pub type Step = (FpgaAction, PipeAction);

/// A write of one byte to one address.
pub type Write = (usize, u8);

/// The pipe after a run of steps.
pub open spec fn pipe_after(start: PipeView, steps: Seq<Step>) -> PipeView
    decreases steps.len(),
{
    if steps.len() == 0 {
        start
    } else {
        pipe_after(start, steps.drop_last()).step(steps.last().0, steps.last().1)
    }
}

/// The FPGA after a run of steps.
pub open spec fn fpga_after(start: FpgaState, steps: Seq<Step>) -> FpgaState
    decreases steps.len(),
{
    if steps.len() == 0 {
        start
    } else {
        fpga_after(start, steps.drop_last()).step(steps.last().0)
    }
}

/// The writes that the FPGA started during a run of steps, in order.
pub open spec fn issued(steps: Seq<Step>) -> Seq<Write>
    decreases steps.len(),
{
    if steps.len() == 0 {
        Seq::empty()
    } else {
        let before = issued(steps.drop_last());
        match steps.last().0.write() {
            Some(write) => before.push(write),
            None => before,
        }
    }
}

/// The writes that the pipe put out during a run of steps, in order.
pub open spec fn delivered(start: PipeView, steps: Seq<Step>) -> Seq<Write>
    decreases steps.len(),
{
    if steps.len() == 0 {
        Seq::empty()
    } else {
        let before = delivered(start, steps.drop_last());
        match pipe_after(start, steps).output() {
            Some(write) => before.push(write),
            None => before,
        }
    }
}

/// The memory after a run of steps, each of which writes what the pipe puts out.
pub open spec fn memory_after(memory: Seq<u8>, start: PipeView, steps: Seq<Step>) -> Seq<u8>
    decreases steps.len(),
{
    if steps.len() == 0 {
        memory
    } else {
        received(
            memory_after(memory, start, steps.drop_last()),
            pipe_after(start, steps).output(),
        )
    }
}

/// The byte that the last write to a cell carries, if there is such a write.
pub open spec fn last_write(writes: Seq<Write>, capacity: int, at: int) -> Option<u8>
    decreases writes.len(),
{
    if writes.len() == 0 {
        None
    } else if cell(writes.last().0, capacity) == at {
        Some(writes.last().1)
    } else {
        last_write(writes.drop_last(), capacity, at)
    }
}

/// The writes to one address, in order.
pub open spec fn to_address(writes: Seq<Write>, address: usize) -> Seq<Write>
    decreases writes.len(),
{
    if writes.len() == 0 {
        Seq::empty()
    } else {
        let before = to_address(writes.drop_last(), address);
        if writes.last().0 == address {
            before.push(writes.last())
        } else {
            before
        }
    }
}

/// `n` steps in which the FPGA does nothing and the pipe puts out its oldest message.
pub open spec fn drain(n: nat) -> Seq<Step> {
    Seq::new(n, |i: int| (FpgaAction::StayIdle, PipeAction::OutputPacket { index: 0 }))
}

/// A run of steps followed by as many as it takes to drain the pipe.
pub open spec fn drained(start: PipeView, steps: Seq<Step>) -> Seq<Step> {
    steps + drain(pipe_after(start, steps).in_transit().len())
}

/// Whether the pipe never puts out anything but its oldest message.
pub open spec fn in_order(steps: Seq<Step>) -> bool {
    forall|i: int|
        0 <= i < steps.len() ==> match (#[trigger] steps[i]).1 {
            PipeAction::OutputPacket { index } => index == 0,
            PipeAction::NoAction => true,
        }
}

/// A write that an FPGA action starts is what the state then shows, whatever the state was before.
pub proof fn law_start_write(state: FpgaState, seq: i32, ack: i32, data: u8, addr: usize)
    ensures
        state.step(FpgaAction::StartWrite { seq, ack, data, addr }) matches
            FpgaState::AutonomouslyWriting { internal_state, write_data, write_address }
            && internal_state.seq_num.0 == seq && internal_state.ack_num.0 == ack
            && (write_address, write_data) == (addr, data),
{
}

/// The FPGA writes after a step if and only if the step starts a write, or the FPGA was writing
/// and is told to go on; what it writes is then what it wrote before.
pub proof fn law_writing(state: FpgaState, action: FpgaAction)
    ensures
        state.step(action) is AutonomouslyWriting <==> action is StartWrite || (
        action is ContinueWriting && state is AutonomouslyWriting),
        action is ContinueWriting ==> state.step(action) == state,
{
}

/// What the FPGA shows as its write, while it writes, is the last write that it started.
pub proof fn law_state_shows_last_issued(steps: Seq<Step>)
    ensures
        fpga_after(FpgaState::Idle, steps) matches FpgaState::AutonomouslyWriting {
            internal_state,
            write_data,
            write_address,
        } ==> issued(steps).len() > 0 && issued(steps).last() == (write_address, write_data),
    decreases steps.len(),
{
    if steps.len() > 0 {
        law_state_shows_last_issued(steps.drop_last());
    }
}

/// No write is lost, made up or repeated on its way: what was on its way and what the FPGA started
/// is, as a multiset, what the pipe put out and what is on its way.
pub proof fn law_conservation(start: PipeView, steps: Seq<Step>)
    ensures
        start.in_transit().to_multiset().add(issued(steps).to_multiset()) == delivered(
            start,
            steps,
        ).to_multiset().add(pipe_after(start, steps).in_transit().to_multiset()),
    decreases steps.len(),
{
    broadcast use vstd::seq_lib::group_to_multiset_ensures;

    let sent = start.in_transit().to_multiset();
    if steps.len() == 0 {
        assert(sent.add(issued(steps).to_multiset()) =~= delivered(
            start,
            steps,
        ).to_multiset().add(sent));
    } else {
        let shorter = steps.drop_last();
        law_conservation(start, shorter);
        let before = pipe_after(start, shorter);
        let after = pipe_after(start, steps);
        let queue = before.queue(steps.last().0);
        if let PipeAction::OutputPacket { index } = steps.last().1 {
            if queue.len() > 0 {
                lemma_put_out(queue, index);
            }
        }
        // What the FPGA starts joins the queue.
        if let Some(write) = steps.last().0.write() {
            assert(issued(steps).to_multiset() =~= issued(shorter).to_multiset().insert(write));
            assert(queue.to_multiset() =~= before.in_transit().to_multiset().insert(write));
            assert(sent.add(issued(steps).to_multiset()) =~= sent.add(
                issued(shorter).to_multiset(),
            ).insert(write));
            assert(delivered(start, shorter).to_multiset().add(queue.to_multiset()) =~= delivered(
                start,
                shorter,
            ).to_multiset().add(before.in_transit().to_multiset()).insert(write));
        }
        assert(sent.add(issued(steps).to_multiset()) =~= delivered(
            start,
            shorter,
        ).to_multiset().add(queue.to_multiset()));
        // What the pipe puts out leaves it.
        assert(delivered(start, shorter).to_multiset().add(queue.to_multiset()) =~= delivered(
            start,
            steps,
        ).to_multiset().add(after.in_transit().to_multiset()));
    }
}

/// A pipe is empty if and only if nothing is on its way and the last step put nothing out.
pub proof fn law_empty(steps: Seq<Step>)
    ensures
        ({
            let pipe = pipe_after(PipeView::Empty, steps);
            pipe is Empty <==> pipe.in_transit().len() == 0 && pipe.output() is None
        }),
{
}

/// The pipe never puts out more writes than the FPGA started, and as many are on their way as were
/// started and not put out.
pub proof fn law_counts(steps: Seq<Step>)
    ensures
        delivered(PipeView::Empty, steps).len() <= issued(steps).len(),
        pipe_after(PipeView::Empty, steps).in_transit().len() == issued(steps).len() - delivered(
            PipeView::Empty,
            steps,
        ).len(),
    decreases steps.len(),
{
    if steps.len() > 0 {
        law_counts(steps.drop_last());
        let queue = pipe_after(PipeView::Empty, steps.drop_last()).queue(steps.last().0);
        if let PipeAction::OutputPacket { index } = steps.last().1 {
            if queue.len() > 0 {
                lemma_put_out(queue, index);
            }
        }
    }
}

/// Writes to one address stay in order, whatever the pipe is told to put out: those that were put
/// out, followed by those on their way, are those that were on their way, followed by those that
/// the FPGA started.
pub proof fn law_order_per_address(start: PipeView, steps: Seq<Step>, address: usize)
    ensures
        to_address(delivered(start, steps), address) + to_address(
            pipe_after(start, steps).in_transit(),
            address,
        ) == to_address(start.in_transit(), address) + to_address(issued(steps), address),
    decreases steps.len(),
{
    let sent = to_address(start.in_transit(), address);
    if steps.len() == 0 {
        assert(to_address(delivered(start, steps), address) + sent =~= sent + to_address(
            issued(steps),
            address,
        ));
    } else {
        let shorter = steps.drop_last();
        law_order_per_address(start, shorter, address);
        let before = pipe_after(start, shorter);
        let after = pipe_after(start, steps);
        let queue = before.queue(steps.last().0);
        let got = to_address(delivered(start, shorter), address);
        // What the FPGA starts joins the queue at the end.
        assert(got + to_address(queue, address) == sent + to_address(issued(steps), address)) by {
            if let Some(write) = steps.last().0.write() {
                lemma_to_address_push(before.in_transit(), write, address);
                lemma_to_address_push(issued(shorter), write, address);
                assert(got + to_address(before.in_transit(), address).push(write) =~= (got
                    + to_address(before.in_transit(), address)).push(write));
                assert(sent + to_address(issued(shorter), address).push(write) =~= (sent
                    + to_address(issued(shorter), address)).push(write));
            }
        }
        // What the pipe puts out is the first of its address to leave it.
        if let PipeAction::OutputPacket { index } = steps.last().1 {
            if queue.len() > 0 && before is Transferring {
                lemma_put_out(queue, index);
                let at = super::pipe::put_out(queue, index);
                lemma_to_address_remove(queue, at, address);
                lemma_to_address_push(delivered(start, shorter), queue[at], address);
                assert(got.push(queue[at]) + to_address(after.in_transit(), address) =~= got + (seq![
                    queue[at],
                ] + to_address(after.in_transit(), address)));
            }
        }
    }
}

/// The writes to an address after one more write.
proof fn lemma_to_address_push(writes: Seq<Write>, write: Write, address: usize)
    ensures
        to_address(writes.push(write), address) == if write.0 == address {
            to_address(writes, address).push(write)
        } else {
            to_address(writes, address)
        },
{
    assert(writes.push(write).drop_last() =~= writes);
}

/// The writes to an address in two runs of writes, one behind the other.
proof fn lemma_to_address_add(a: Seq<Write>, b: Seq<Write>, address: usize)
    ensures
        to_address(a + b, address) == to_address(a, address) + to_address(b, address),
    decreases b.len(),
{
    if b.len() == 0 {
        assert(a + b =~= a);
        assert(to_address(a, address) + to_address(b, address) =~= to_address(a, address));
    } else {
        assert((a + b).drop_last() =~= a + b.drop_last());
        lemma_to_address_add(a, b.drop_last(), address);
        assert(to_address(a + b, address) =~= to_address(a, address) + to_address(b, address));
    }
}

/// There are no writes to an address among writes to others.
proof fn lemma_to_address_none(writes: Seq<Write>, address: usize)
    requires
        forall|i: int| 0 <= i < writes.len() ==> (#[trigger] writes[i]).0 != address,
    ensures
        to_address(writes, address) == Seq::<Write>::empty(),
    decreases writes.len(),
{
    if writes.len() > 0 {
        let shorter = writes.drop_last();
        assert forall|i: int| 0 <= i < shorter.len() implies (#[trigger] shorter[i]).0
            != address by {
            assert(shorter[i] == writes[i]);
        }
        assert(writes.last() == writes[writes.len() - 1]);
        lemma_to_address_none(shorter, address);
    }
}

/// Taking the first write to its address out of a run of writes takes it off the front of the
/// writes to that address, and leaves those to other addresses alone.
proof fn lemma_to_address_remove(writes: Seq<Write>, at: int, address: usize)
    requires
        0 <= at < writes.len(),
        forall|i: int| 0 <= i < at ==> (#[trigger] writes[i]).0 != writes[at].0,
    ensures
        to_address(writes, address) == if writes[at].0 == address {
            seq![writes[at]] + to_address(writes.remove(at), address)
        } else {
            to_address(writes.remove(at), address)
        },
{
    let front = writes.take(at);
    let back = writes.skip(at + 1);
    let one = seq![writes[at]];
    assert(writes =~= front + one + back);
    assert(writes.remove(at) =~= front + back);
    lemma_to_address_add(front + one, back, address);
    lemma_to_address_add(front, one, address);
    lemma_to_address_add(front, back, address);
    assert(one =~= Seq::<Write>::empty().push(writes[at]));
    lemma_to_address_push(Seq::empty(), writes[at], address);
    if writes[at].0 == address {
        assert forall|i: int| 0 <= i < front.len() implies (#[trigger] front[i]).0
            != address by {
            assert(front[i] == writes[i]);
        }
        lemma_to_address_none(front, address);
        assert(to_address(writes, address) =~= one + to_address(writes.remove(at), address));
    } else {
        assert(to_address(writes, address) =~= to_address(writes.remove(at), address));
    }
}

/// A pipe that never puts out anything but its oldest message keeps the writes in order.
pub proof fn law_in_order(start: PipeView, steps: Seq<Step>)
    requires
        in_order(steps),
    ensures
        delivered(start, steps) + pipe_after(start, steps).in_transit() == start.in_transit()
            + issued(steps),
    decreases steps.len(),
{
    if steps.len() == 0 {
        assert(delivered(start, steps) + start.in_transit() =~= start.in_transit() + issued(
            steps,
        ));
    } else {
        let shorter = steps.drop_last();
        assert forall|i: int| 0 <= i < shorter.len() implies match (#[trigger] shorter[i]).1 {
            PipeAction::OutputPacket { index } => index == 0,
            PipeAction::NoAction => true,
        } by {
            assert(shorter[i] == steps[i]);
        }
        law_in_order(start, shorter);
        assert(steps.last() == steps[steps.len() - 1]);
        let queue = pipe_after(start, shorter).queue(steps.last().0);
        assert(delivered(start, shorter) + queue =~= start.in_transit() + issued(steps)) by {
            let left = delivered(start, shorter) + pipe_after(start, shorter).in_transit();
            let right = start.in_transit() + issued(shorter);
            if let Some(write) = steps.last().0.write() {
                assert(delivered(start, shorter) + queue =~= left.push(write));
                assert(start.in_transit() + issued(steps) =~= right.push(write));
            }
        }
        assert(delivered(start, steps) + pipe_after(start, steps).in_transit() =~= delivered(
            start,
            shorter,
        ) + queue);
    }
}

/// Running on from where a run of steps stopped is running both in one.
pub proof fn law_concatenation(start: PipeView, first: Seq<Step>, second: Seq<Step>)
    ensures
        pipe_after(start, first + second) == pipe_after(pipe_after(start, first), second),
        issued(first + second) == issued(first) + issued(second),
        delivered(start, first + second) == delivered(start, first) + delivered(
            pipe_after(start, first),
            second,
        ),
    decreases second.len(),
{
    if second.len() == 0 {
        assert(first + second =~= first);
        assert(issued(first) + issued(second) =~= issued(first));
        assert(delivered(start, first) + delivered(pipe_after(start, first), second)
            =~= delivered(start, first));
    } else {
        assert((first + second).drop_last() =~= first + second.drop_last());
        law_concatenation(start, first, second.drop_last());
        assert(issued(first + second) =~= issued(first) + issued(second));
        assert(delivered(start, first + second) =~= delivered(start, first) + delivered(
            pipe_after(start, first),
            second,
        ));
    }
}

/// Draining the pipe puts out what is on its way, oldest first, and leaves nothing.
pub proof fn law_drain(start: PipeView)
    ensures
        delivered(start, drain(start.in_transit().len())) == start.in_transit(),
        pipe_after(start, drain(start.in_transit().len())).in_transit().len() == 0,
{
    let n = start.in_transit().len();
    let steps = drain(n);
    lemma_drain_part(start, n);
    law_in_order(start, steps);
    lemma_drain_issues_nothing(n);
    assert(start.in_transit() + issued(steps) =~= start.in_transit());
    assert(delivered(start, steps) + pipe_after(start, steps).in_transit() =~= delivered(
        start,
        steps,
    ));
}

/// Each step of a drain takes one message off the queue.
proof fn lemma_drain_part(start: PipeView, n: nat)
    requires
        n <= start.in_transit().len(),
    ensures
        pipe_after(start, drain(n)).in_transit().len() == start.in_transit().len() - n,
        n > 0 || start is Transferring ==> pipe_after(start, drain(n)) is Transferring,
    decreases n,
{
    if n > 0 {
        assert(drain(n).drop_last() =~= drain((n - 1) as nat));
        lemma_drain_part(start, (n - 1) as nat);
    }
}

/// A drain starts no writes.
proof fn lemma_drain_issues_nothing(n: nat)
    ensures
        issued(drain(n)) == Seq::<Write>::empty(),
    decreases n,
{
    if n > 0 {
        assert(drain(n).drop_last() =~= drain((n - 1) as nat));
        lemma_drain_issues_nothing((n - 1) as nat);
    }
}

/// Once the pipe is drained, it has put out exactly the writes that the FPGA started, in some
/// order.
pub proof fn law_all_delivered(steps: Seq<Step>)
    ensures
        delivered(PipeView::Empty, drained(PipeView::Empty, steps)).to_multiset() == issued(
            steps,
        ).to_multiset(),
{
    broadcast use vstd::seq_lib::group_to_multiset_ensures;

    let empty = PipeView::Empty;
    let all = drained(empty, steps);
    let rest = drain(pipe_after(empty, steps).in_transit().len());
    law_concatenation(empty, steps, rest);
    law_drain(pipe_after(empty, steps));
    lemma_drain_issues_nothing(pipe_after(empty, steps).in_transit().len());
    law_conservation(empty, all);
    assert(issued(all) =~= issued(steps));
    assert(pipe_after(empty, all).in_transit() =~= Seq::empty());
    assert(Seq::<Write>::empty().to_multiset() =~= Multiset::empty());
    assert(Multiset::empty().add(issued(steps).to_multiset()) =~= issued(steps).to_multiset());
    assert(delivered(empty, all).to_multiset().add(Multiset::empty()) =~= delivered(
        empty,
        all,
    ).to_multiset());
    assert(delivered(empty, all).to_multiset() =~= issued(steps).to_multiset());
}

/// Reading an address back gives what was written to it, also where the address wraps around; a
/// write changes no other cell and not the size.
pub proof fn law_read_after_write(memory: Seq<u8>, address: usize, data: u8, other: usize)
    requires
        memory.len() > 0,
    ensures
        ({
            let after = stored(memory, (address, data));
            let at = cell(other, memory.len() as int);
            &&& after.len() == memory.len()
            &&& after[at] == if at == cell(address, memory.len() as int) {
                data
            } else {
                memory[at]
            }
        }),
{
    assert(0 <= cell(address, memory.len() as int) < memory.len());
    assert(0 <= cell(other, memory.len() as int) < memory.len());
}

/// A cell holds what the last write put out to it carries, or what it held before if there was no
/// such write.
pub proof fn law_memory(memory: Seq<u8>, start: PipeView, steps: Seq<Step>, at: int)
    requires
        0 <= at < memory.len(),
    ensures
        memory_after(memory, start, steps).len() == memory.len(),
        memory_after(memory, start, steps)[at] == match last_write(
            delivered(start, steps),
            memory.len() as int,
            at,
        ) {
            Some(data) => data,
            None => memory[at],
        },
    decreases steps.len(),
{
    if steps.len() > 0 {
        law_memory(memory, start, steps.drop_last(), at);
        if let Some(write) = pipe_after(start, steps).output() {
            let before = delivered(start, steps.drop_last());
            assert(before.push(write).drop_last() =~= before);
            assert(0 <= cell(write.0, memory.len() as int) < memory.len());
        }
    }
}

/// The last write to a cell is one of the writes.
proof fn lemma_last_write(writes: Seq<Write>, capacity: int, at: int)
    ensures
        last_write(writes, capacity, at) matches Some(data) ==> exists|i: int|
            0 <= i < writes.len() && cell((#[trigger] writes[i]).0, capacity) == at
                && writes[i].1 == data,
        last_write(writes, capacity, at) is None ==> forall|i: int|
            0 <= i < writes.len() ==> cell((#[trigger] writes[i]).0, capacity) != at,
    decreases writes.len(),
{
    if writes.len() > 0 {
        let shorter = writes.drop_last();
        lemma_last_write(shorter, capacity, at);
        assert(writes.last() == writes[writes.len() - 1]);
        if cell(writes.last().0, capacity) != at {
            if let Some(data) = last_write(shorter, capacity, at) {
                let i = choose|i: int|
                    0 <= i < shorter.len() && cell((#[trigger] shorter[i]).0, capacity) == at
                        && shorter[i].1 == data;
                assert(writes[i] == shorter[i]);
            } else {
                assert forall|i: int| 0 <= i < writes.len() implies cell(
                    (#[trigger] writes[i]).0,
                    capacity,
                ) != at by {
                    if i < shorter.len() {
                        assert(writes[i] == shorter[i]);
                    }
                }
            }
        }
    }
}

/// Once the pipe is drained, every write has reached the memory: the cell of each write that the
/// FPGA started holds the byte of a write that the FPGA started to that cell.
pub proof fn law_every_write_arrives(memory: Seq<u8>, steps: Seq<Step>, i: int)
    requires
        memory.len() > 0,
        0 <= i < issued(steps).len(),
    ensures
        ({
            let capacity = memory.len() as int;
            let at = cell(issued(steps)[i].0, capacity);
            let after = memory_after(memory, PipeView::Empty, drained(PipeView::Empty, steps));
            exists|j: int|
                0 <= j < issued(steps).len() && cell((#[trigger] issued(steps)[j]).0, capacity)
                    == at && after[at] == issued(steps)[j].1
        }),
{
    broadcast use vstd::seq_lib::group_to_multiset_ensures;

    let capacity = memory.len() as int;
    let sent = issued(steps);
    let all = drained(PipeView::Empty, steps);
    let got = delivered(PipeView::Empty, all);
    let at = cell(sent[i].0, capacity);
    assert(0 <= at < capacity);
    law_memory(memory, PipeView::Empty, all, at);
    law_all_delivered(steps);
    lemma_last_write(got, capacity, at);
    assert(got.to_multiset().count(sent[i]) > 0) by {
        assert(sent.contains(sent[i]));
    }
    assert(got.contains(sent[i]));
    let k = choose|k: int| 0 <= k < got.len() && got[k] == sent[i];
    assert(cell(got[k].0, capacity) == at);
    let data = last_write(got, capacity, at)->0;
    let l = choose|l: int|
        0 <= l < got.len() && cell((#[trigger] got[l]).0, capacity) == at && got[l].1 == data;
    assert(sent.to_multiset().count(got[l]) > 0) by {
        assert(got.contains(got[l]));
    }
    assert(sent.contains(got[l]));
    let j = choose|j: int| 0 <= j < sent.len() && sent[j] == got[l];
    assert(cell(sent[j].0, capacity) == at);
}

/// Where all writes to a cell are to one address, the last write to the cell is the last one to
/// that address.
proof fn lemma_last_write_to_address(
    writes: Seq<Write>,
    capacity: int,
    address: usize,
)
    requires
        forall|i: int|
            0 <= i < writes.len() && cell((#[trigger] writes[i]).0, capacity) == cell(
                address,
                capacity,
            ) ==> writes[i].0 == address,
    ensures
        last_write(writes, capacity, cell(address, capacity)) == if to_address(
            writes,
            address,
        ).len() == 0 {
            None
        } else {
            Some(to_address(writes, address).last().1)
        },
    decreases writes.len(),
{
    if writes.len() > 0 {
        let shorter = writes.drop_last();
        assert forall|i: int|
            0 <= i < shorter.len() && cell((#[trigger] shorter[i]).0, capacity) == cell(
                address,
                capacity,
            ) implies shorter[i].0 == address by {
            assert(shorter[i] == writes[i]);
        }
        assert(writes.last() == writes[writes.len() - 1]);
        lemma_last_write_to_address(shorter, capacity, address);
    }
}

/// A cell holds the byte of the last write that the FPGA started to it, if that is the last one
/// put out to it.
proof fn lemma_last_delivered(memory: Seq<u8>, steps: Seq<Step>, i: int)
    requires
        memory.len() > 0,
        0 <= i < issued(steps).len(),
        ({
            let capacity = memory.len() as int;
            let at = cell(issued(steps)[i].0, capacity);
            last_write(
                delivered(PipeView::Empty, drained(PipeView::Empty, steps)),
                capacity,
                at,
            ) == last_write(issued(steps), capacity, at)
        }),
    ensures
        ({
            let capacity = memory.len() as int;
            let at = cell(issued(steps)[i].0, capacity);
            let after = memory_after(memory, PipeView::Empty, drained(PipeView::Empty, steps));
            Some(after[at]) == last_write(issued(steps), capacity, at)
        }),
{
    let capacity = memory.len() as int;
    let at = cell(issued(steps)[i].0, capacity);
    assert(0 <= at < capacity);
    law_memory(memory, PipeView::Empty, drained(PipeView::Empty, steps), at);
    lemma_last_write(issued(steps), capacity, at);
}

/// Once the pipe is drained, the cell of each write that the FPGA started holds the byte of the
/// last write that the FPGA started to that cell, whatever the pipe was told to put out first, as
/// long as no two different addresses that were written to wrap around to that cell.
pub proof fn law_last_write_wins(memory: Seq<u8>, steps: Seq<Step>, i: int)
    requires
        memory.len() > 0,
        0 <= i < issued(steps).len(),
        forall|j: int|
            0 <= j < issued(steps).len() && cell(
                (#[trigger] issued(steps)[j]).0,
                memory.len() as int,
            ) == cell(issued(steps)[i].0, memory.len() as int) ==> issued(steps)[j].0 == issued(
                steps,
            )[i].0,
    ensures
        ({
            let capacity = memory.len() as int;
            let at = cell(issued(steps)[i].0, capacity);
            let after = memory_after(memory, PipeView::Empty, drained(PipeView::Empty, steps));
            Some(after[at]) == last_write(issued(steps), capacity, at)
        }),
{
    broadcast use vstd::seq_lib::group_to_multiset_ensures;

    let empty = PipeView::Empty;
    let capacity = memory.len() as int;
    let sent = issued(steps);
    let all = drained(empty, steps);
    let got = delivered(empty, all);
    let address = sent[i].0;
    let rest = pipe_after(empty, steps).in_transit().len();
    law_concatenation(empty, steps, drain(rest));
    law_drain(pipe_after(empty, steps));
    lemma_drain_issues_nothing(rest);
    assert(issued(all) =~= sent);
    // What was put out is what was started, so it wraps around no more than that does.
    law_all_delivered(steps);
    assert forall|k: int|
        0 <= k < got.len() && cell((#[trigger] got[k]).0, capacity) == cell(
            address,
            capacity,
        ) implies got[k].0 == address by {
        assert(got.contains(got[k]));
        assert(sent.to_multiset().count(got[k]) > 0);
        assert(sent.contains(got[k]));
        let j = choose|j: int| 0 <= j < sent.len() && sent[j] == got[k];
        assert(cell(sent[j].0, capacity) == cell(address, capacity));
    }
    lemma_last_write_to_address(got, capacity, address);
    lemma_last_write_to_address(sent, capacity, address);
    // At the address itself the order is kept.
    law_order_per_address(empty, all, address);
    assert(pipe_after(empty, all).in_transit() =~= Seq::empty());
    assert(to_address(got, address) + Seq::<Write>::empty() =~= to_address(got, address));
    assert(Seq::<Write>::empty() + to_address(sent, address) =~= to_address(sent, address));
    lemma_last_delivered(memory, steps, i);
}

/// In particular, this holds where every address that was written to lies within the memory.
pub proof fn law_last_write_wins_within_memory(memory: Seq<u8>, steps: Seq<Step>, i: int)
    requires
        0 <= i < issued(steps).len(),
        forall|j: int|
            0 <= j < issued(steps).len() ==> (#[trigger] issued(steps)[j]).0 < memory.len(),
    ensures
        ({
            let address = issued(steps)[i].0 as int;
            let after = memory_after(memory, PipeView::Empty, drained(PipeView::Empty, steps));
            &&& cell(issued(steps)[i].0, memory.len() as int) == address
            &&& Some(after[address]) == last_write(issued(steps), memory.len() as int, address)
        }),
{
    let capacity = memory.len() as int;
    assert forall|j: int| 0 <= j < issued(steps).len() implies cell(
        (#[trigger] issued(steps)[j]).0,
        capacity,
    ) == issued(steps)[j].0 by {
        vstd::arithmetic::div_mod::lemma_small_mod(issued(steps)[j].0 as nat, capacity as nat);
    }
    law_last_write_wins(memory, steps, i);
}

/// A pipe that never puts out anything but its oldest message keeps the order of all writes: once
/// it is drained, the cell of each write that the FPGA started holds the byte of the last write
/// that the FPGA started to that cell, also where different addresses wrap around to it.
pub proof fn law_last_write_wins_in_order(memory: Seq<u8>, steps: Seq<Step>, i: int)
    requires
        memory.len() > 0,
        0 <= i < issued(steps).len(),
        in_order(steps),
    ensures
        ({
            let capacity = memory.len() as int;
            let at = cell(issued(steps)[i].0, capacity);
            let after = memory_after(memory, PipeView::Empty, drained(PipeView::Empty, steps));
            Some(after[at]) == last_write(issued(steps), capacity, at)
        }),
{
    let empty = PipeView::Empty;
    let rest = drain(pipe_after(empty, steps).in_transit().len());
    law_concatenation(empty, steps, rest);
    law_drain(pipe_after(empty, steps));
    law_in_order(empty, steps);
    assert(empty.in_transit() + issued(steps) =~= issued(steps));
    lemma_last_delivered(memory, steps, i);
}

} // verus!
