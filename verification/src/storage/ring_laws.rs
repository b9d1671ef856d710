//! What the operations of a ring buffer do, slot by slot.
//!
//! Storage indices are counted modulo the capacity. A statement about the slot at logical position
//! `i` speaks of element `i` of the contents followed by the free slots.

use vstd::prelude::*;

use super::ring_state::{min, wrap, RingState};

verus! {

/// Positions are counted modulo the capacity.
proof fn lemma_wrap(head: int, i: int, capacity: int)
    requires
        0 <= head < capacity,
        0 <= i <= capacity,
    ensures
        (head + i) % capacity == wrap(head, i, capacity),
        0 <= wrap(head, i, capacity) < capacity,
{
    let q: int = if head + i < capacity {
        0
    } else {
        1
    };
    assert(head + i == q * capacity + wrap(head, i, capacity));
    vstd::arithmetic::div_mod::lemma_fundamental_div_mod_converse(
        head + i,
        capacity,
        q,
        wrap(head, i, capacity),
    );
}

/// The smaller of two integers is one of them, and no larger than the other.
pub proof fn law_min(a: int, b: int)
    ensures
        min(a, b) <= a,
        min(a, b) <= b,
        min(a, b) == a || min(a, b) == b,
{
}

/// The capacity is the number of allocated elements and free slots together.
pub proof fn law_capacity<T>(state: RingState<T>)
    ensures
        state.capacity() == state.contents.len() + state.free.len(),
{
}

/// The slots fill the storage from the head on and wrap around at its end.
pub proof fn law_storage<T>(state: RingState<T>)
    requires
        0 <= state.head,
        state.head < state.contents.len() + state.free.len() || state.head == 0,
    ensures
        ({
            let capacity = (state.contents.len() + state.free.len()) as int;
            &&& state.storage().len() == capacity
            &&& forall|i: int|
                0 <= i < capacity ==> state.storage()[(state.head + i) % capacity] == (
                #[trigger] (state.contents + state.free)[i])
        }),
{
    let capacity = (state.contents.len() + state.free.len()) as int;
    assert forall|i: int| 0 <= i < capacity implies state.storage()[(state.head + i) % capacity]
        == (#[trigger] (state.contents + state.free)[i]) by {
        lemma_wrap(state.head, i, capacity);
    }
}

/// Clearing a ring allocates nothing, keeps every slot where it lies in the storage, and puts the
/// head at the start of the storage.
pub proof fn law_clear_effect<T>(state: RingState<T>)
    requires
        0 <= state.head,
        state.head < state.contents.len() + state.free.len() || state.head == 0,
    ensures
        ({
            let capacity = (state.contents.len() + state.free.len()) as int;
            let after = state.cleared();
            &&& after.contents.len() == 0
            &&& after.head == 0
            &&& after.free.len() == capacity
            &&& forall|i: int|
                0 <= i < capacity ==> after.free[(state.head + i) % capacity] == (
                #[trigger] (state.contents + state.free)[i])
        }),
{
    law_storage(state);
}

/// An enqueue starts at the start of the storage if nothing is allocated, and else with the ring
/// as it is.
pub proof fn law_rewind_effect<T>(state: RingState<T>)
    requires
        0 <= state.head,
        state.head < state.contents.len() + state.free.len() || state.head == 0,
    ensures
        state.contents.len() > 0 ==> state.rewound() == state,
        state.contents.len() == 0 ==> {
            let capacity = state.free.len() as int;
            let after = state.rewound();
            &&& after.contents.len() == 0
            &&& after.head == 0
            &&& after.free.len() == capacity
            &&& forall|i: int|
                0 <= i < capacity ==> after.free[(state.head + i) % capacity] == (
                #[trigger] state.free[i])
        },
{
    law_clear_effect(state);
    if state.contents.len() == 0 {
        let capacity = state.free.len() as int;
        assert forall|i: int| 0 <= i < capacity implies state.rewound().free[(state.head + i)
            % capacity] == (#[trigger] state.free[i]) by {
            assert((state.contents + state.free)[i] == state.free[i]);
        }
    }
}

/// The contiguous window is the longest run of free slots behind the contents: it holds all of
/// them, or reaches the end of the storage.
pub proof fn law_contiguous_window<T>(state: RingState<T>)
    requires
        0 <= state.head,
        state.head < state.contents.len() + state.free.len() || state.head == 0,
    ensures
        ({
            let capacity = (state.contents.len() + state.free.len()) as int;
            let window = state.contiguous_window();
            let at = (state.head + state.contents.len()) % capacity;
            &&& 0 <= window <= state.free.len()
            &&& capacity > 0 ==> at + window <= capacity
            &&& window == state.free.len() || at + window == capacity
            &&& state.free.len() > 0 ==> window > 0
            &&& state.head == 0 ==> window == state.free.len()
            &&& state.head + state.contents.len() >= capacity ==> window == state.free.len()
        }),
{
    let capacity = (state.contents.len() + state.free.len()) as int;
    if capacity > 0 {
        lemma_wrap(state.head, state.contents.len() as int, capacity);
    }
}

/// The slots that an enqueue hands out are the longest contiguous run of free slots behind the
/// contents: they start with the first free slot, and hold all free slots or reach the end of the
/// storage. While any slot is free there is at least one. An empty ring hands out its whole
/// storage, from the start of it.
pub proof fn law_enqueue_slots<T>(state: RingState<T>)
    requires
        0 <= state.head,
        state.head < state.contents.len() + state.free.len() || state.head == 0,
    ensures
        ({
            let capacity = (state.contents.len() + state.free.len()) as int;
            let slots = state.enqueue_slots();
            let at = if state.contents.len() == 0 {
                0
            } else {
                (state.head + state.contents.len()) % capacity
            };
            &&& slots.len() <= state.free.len()
            &&& at + slots.len() <= capacity
            &&& slots.len() == state.free.len() || at + slots.len() == capacity
            &&& state.free.len() > 0 ==> slots.len() > 0
            &&& state.head == 0 ==> slots.len() == state.free.len()
            &&& state.contents.len() == 0 ==> slots.len() == state.free.len()
            &&& state.head + state.contents.len() >= capacity ==> slots.len() == state.free.len()
            &&& state.contents.len() > 0 ==> forall|i: int|
                0 <= i < slots.len() ==> #[trigger] slots[i] == state.free[i]
            &&& state.contents.len() == 0 ==> forall|i: int|
                0 <= i < capacity ==> slots[(state.head + i) % capacity] == (
                #[trigger] state.free[i])
        }),
{
    law_rewind_effect(state);
    law_contiguous_window(state.rewound());
    let capacity = (state.contents.len() + state.free.len()) as int;
    if state.contents.len() == 0 {
        assert(state.enqueue_slots() =~= state.rewound().free);
    }
}

/// A chunk starts at the offset and goes on as long as it may: it is as long as asked for, or ends
/// with the last element, or at the end of the storage.
pub proof fn law_chunk<T>(state: RingState<T>, offset: int, size: int)
    requires
        0 <= state.head,
        state.head < state.contents.len() + state.free.len() || state.head == 0,
        0 <= offset,
        0 <= size,
    ensures
        ({
            let capacity = (state.contents.len() + state.free.len()) as int;
            let chunk = state.chunk(offset, size);
            let at = (state.head + offset) % capacity;
            &&& offset >= state.contents.len() ==> chunk.len() == 0
            &&& offset < state.contents.len() ==> {
                &&& chunk.len() <= size
                &&& offset + chunk.len() <= state.contents.len()
                &&& at + chunk.len() <= capacity
                &&& chunk.len() == size || offset + chunk.len() == state.contents.len() || at
                    + chunk.len() == capacity
                &&& size > 0 ==> chunk.len() > 0
                &&& forall|i: int|
                    0 <= i < chunk.len() ==> #[trigger] chunk[i] == state.contents[offset + i]
            }
        }),
{
    let capacity = (state.contents.len() + state.free.len()) as int;
    if offset < state.contents.len() {
        lemma_wrap(state.head, offset, capacity);
    }
}

/// The front is the longest run of elements, from the oldest one on, that does not wrap around.
pub proof fn law_front<T>(state: RingState<T>)
    requires
        0 <= state.head,
        state.head < state.contents.len() + state.free.len() || state.head == 0,
    ensures
        ({
            let capacity = (state.contents.len() + state.free.len()) as int;
            let front = state.front();
            &&& front.len() <= state.contents.len()
            &&& state.head + front.len() <= capacity
            &&& front.len() == state.contents.len() || state.head + front.len() == capacity
            &&& state.contents.len() > 0 ==> front.len() > 0
            &&& forall|i: int| 0 <= i < front.len() ==> #[trigger] front[i] == state.contents[i]
        }),
{
    let capacity = (state.contents.len() + state.free.len()) as int;
    if capacity > 0 {
        lemma_wrap(state.head, 0, capacity);
    }
    law_chunk(state, 0, state.contents.len() as int);
}

/// A chunk of free slots starts at the offset and goes on as long as it may: it is as long as
/// asked for, or ends with the last free slot, or at the end of the storage.
pub proof fn law_free_chunk<T>(state: RingState<T>, offset: int, size: int)
    requires
        0 <= state.head,
        state.head < state.contents.len() + state.free.len() || state.head == 0,
        0 <= offset,
        0 <= size,
    ensures
        ({
            let capacity = (state.contents.len() + state.free.len()) as int;
            let chunk = state.free_chunk(offset, size);
            let at = (state.head + state.contents.len() + offset) % capacity;
            &&& offset >= state.free.len() ==> chunk.len() == 0
            &&& offset < state.free.len() ==> {
                &&& chunk.len() <= size
                &&& offset + chunk.len() <= state.free.len()
                &&& at + chunk.len() <= capacity
                &&& chunk.len() == size || offset + chunk.len() == state.free.len() || at
                    + chunk.len() == capacity
                &&& size > 0 ==> chunk.len() > 0
                &&& forall|i: int|
                    0 <= i < chunk.len() ==> #[trigger] chunk[i] == state.free[offset + i]
            }
        }),
{
    let capacity = (state.contents.len() + state.free.len()) as int;
    if offset < state.free.len() {
        lemma_wrap(state.head, state.contents.len() + offset, capacity);
        assert(state.head + state.contents.len() + offset == state.head + (state.contents.len()
            + offset));
    }
}

/// A piece starts at the offset and is as long as asked for, or ends with the last element,
/// wherever the elements lie in the storage.
pub proof fn law_piece<T>(state: RingState<T>, offset: int, size: int)
    requires
        0 <= offset,
        0 <= size,
    ensures
        ({
            let piece = state.piece(offset, size);
            &&& offset >= state.contents.len() ==> piece.len() == 0
            &&& offset < state.contents.len() ==> {
                &&& piece.len() <= size
                &&& offset + piece.len() <= state.contents.len()
                &&& piece.len() == size || offset + piece.len() == state.contents.len()
                &&& forall|i: int|
                    0 <= i < piece.len() ==> #[trigger] piece[i] == state.contents[offset + i]
            }
        }),
{
}

/// As much can be written as is given, or as there are free slots from the offset on.
pub proof fn law_writable<T>(state: RingState<T>, offset: int, size: int)
    requires
        0 <= offset,
        0 <= size,
    ensures
        ({
            let n = state.writable(offset, size);
            &&& offset >= state.free.len() ==> n == 0
            &&& offset < state.free.len() ==> {
                &&& 0 <= n <= size
                &&& offset + n <= state.free.len()
                &&& n == size || offset + n == state.free.len()
            }
        }),
{
}

/// Writing to free slots changes those slots and nothing else.
pub proof fn law_write_effect<T>(state: RingState<T>, offset: int, data: Seq<T>)
    requires
        0 <= offset,
        offset + data.len() <= state.free.len() || data.len() == 0,
    ensures
        ({
            let after = state.with_free(offset, data);
            &&& after.contents == state.contents
            &&& after.head == state.head
            &&& after.free.len() == state.free.len()
            &&& forall|i: int|
                0 <= i < state.free.len() ==> #[trigger] after.free[i] == if offset <= i < offset
                    + data.len() {
                    data[i - offset]
                } else {
                    state.free[i]
                }
        }),
{
}

/// Overwriting the first elements changes those elements and nothing else.
pub proof fn law_overwrite_effect<T>(state: RingState<T>, data: Seq<T>)
    requires
        data.len() <= state.contents.len(),
    ensures
        ({
            let after = state.with_front(data);
            &&& after.free == state.free
            &&& after.head == state.head
            &&& after.contents.len() == state.contents.len()
            &&& forall|i: int|
                0 <= i < state.contents.len() ==> #[trigger] after.contents[i] == if i
                    < data.len() {
                    data[i]
                } else {
                    state.contents[i]
                }
        }),
{
}

/// Allocating free slots moves the border between contents and free slots, and no slot.
pub proof fn law_allocate_effect<T>(state: RingState<T>, n: int)
    requires
        0 <= n <= state.free.len(),
    ensures
        ({
            let after = state.allocated(n);
            &&& after.head == state.head
            &&& after.contents.len() == state.contents.len() + n
            &&& after.contents + after.free == state.contents + state.free
        }),
{
    let after = state.allocated(n);
    assert(after.contents + after.free =~= state.contents + state.free);
}

/// Dequeuing takes the oldest elements off the contents. No slot moves in the storage: the head
/// moves on by as many slots, and the elements taken off are the last of the free slots.
pub proof fn law_dequeue_effect<T>(state: RingState<T>, n: int)
    requires
        0 <= state.head,
        state.head < state.contents.len() + state.free.len() || state.head == 0,
        0 <= n <= state.contents.len(),
    ensures
        ({
            let capacity = (state.contents.len() + state.free.len()) as int;
            let after = state.dequeued(n);
            &&& after.contents.len() == state.contents.len() - n
            &&& after.free.len() == state.free.len() + n
            &&& capacity > 0 ==> after.head == (state.head + n) % capacity
            &&& capacity == 0 ==> after.head == 0
            &&& forall|i: int|
                0 <= i < after.contents.len() ==> #[trigger] after.contents[i]
                    == state.contents[n + i]
            &&& forall|i: int|
                0 <= i < after.free.len() ==> #[trigger] after.free[i] == if i
                    < state.free.len() {
                    state.free[i]
                } else {
                    state.contents[i - state.free.len()]
                }
        }),
{
    let capacity = (state.contents.len() + state.free.len()) as int;
    if capacity > 0 {
        lemma_wrap(state.head, n, capacity);
    }
}

/// Enqueuing what a caller has written to the slots handed out appends the first `n` elements of
/// it to the contents. The rest of it is what the next free slots hold, and the slots behind it
/// are what they were. The head stays, but for an empty ring, which starts over at the start of
/// the storage.
pub proof fn law_enqueue_with_effect<T>(state: RingState<T>, written: Seq<T>, n: int)
    requires
        0 <= state.head,
        state.head < state.contents.len() + state.free.len() || state.head == 0,
        written.len() <= state.free.len(),
        0 <= n <= written.len(),
    ensures
        ({
            let capacity = (state.contents.len() + state.free.len()) as int;
            let after = state.enqueued_with(written, n);
            &&& after.contents.len() == state.contents.len() + n
            &&& after.free.len() == state.free.len() - n
            &&& after.head == if state.contents.len() == 0 {
                0
            } else {
                state.head
            }
            &&& forall|i: int|
                0 <= i < after.contents.len() ==> #[trigger] after.contents[i] == if i
                    < state.contents.len() {
                    state.contents[i]
                } else {
                    written[i - state.contents.len()]
                }
            &&& forall|i: int|
                0 <= i < written.len() - n ==> #[trigger] after.free[i] == written[n + i]
            &&& state.contents.len() > 0 ==> forall|i: int|
                written.len() - n <= i < after.free.len() ==> #[trigger] after.free[i]
                    == state.free[n + i]
            &&& state.contents.len() == 0 ==> forall|i: int|
                0 <= i < capacity && (state.head + i) % capacity >= written.len()
                    ==> after.free[(state.head + i) % capacity - n] == (#[trigger] state.free[i])
        }),
{
    law_rewind_effect(state);
    let capacity = (state.contents.len() + state.free.len()) as int;
    let start = state.rewound();
    let after = state.enqueued_with(written, n);
    law_write_effect(start, 0, written);
    let filled = start.with_free(0, written);
    assert(after.contents =~= start.contents + filled.free.take(n));
    assert(after.free =~= filled.free.skip(n));
    if state.contents.len() == 0 {
        assert forall|i: int|
            0 <= i < capacity && (state.head + i) % capacity >= written.len() implies after.free[(
        state.head + i) % capacity - n] == (#[trigger] state.free[i]) by {
            lemma_wrap(state.head, i, capacity);
            let at = (state.head + i) % capacity;
            assert(after.free[at - n] == filled.free[at]);
        }
    }
}

/// Enqueuing data appends it to the contents, uses up as many free slots, and leaves the others
/// as they were. The head stays, but for an empty ring, which starts over at the start of the
/// storage.
pub proof fn law_enqueue_effect<T>(state: RingState<T>, data: Seq<T>)
    requires
        0 <= state.head,
        state.head < state.contents.len() + state.free.len() || state.head == 0,
        data.len() <= state.free.len(),
    ensures
        ({
            let capacity = (state.contents.len() + state.free.len()) as int;
            let after = state.enqueued(data);
            &&& after.contents == state.contents + data
            &&& after.free.len() == state.free.len() - data.len()
            &&& after.head == if state.contents.len() == 0 {
                0
            } else {
                state.head
            }
            &&& state.contents.len() > 0 ==> forall|i: int|
                0 <= i < after.free.len() ==> #[trigger] after.free[i] == state.free[data.len()
                    + i]
            &&& state.contents.len() == 0 ==> forall|i: int|
                0 <= i < capacity && (state.head + i) % capacity >= data.len()
                    ==> after.free[(state.head + i) % capacity - data.len()] == (
                #[trigger] state.free[i])
        }),
{
    law_enqueue_with_effect(state, data, data.len() as int);
    assert(state.enqueued(data).contents =~= state.contents + data);
}

} // verus!
