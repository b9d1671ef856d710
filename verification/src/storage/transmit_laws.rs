//! What the operations of a masked socket buffer do, byte by byte.
//!
//! The number of set flags in a run of flags is how often `true` occurs in it.

use vstd::prelude::*;

use super::masked_laws::law_transmittable_run;
use super::masked_state::{count_set, lemma_first_flag, scan_end, select, MaskedState};
use super::ring_state::RingState;

verus! {

/// The number of set flags is how often `true` occurs.
proof fn lemma_count(mask: Seq<bool>)
    ensures
        count_set(mask) == mask.to_multiset().count(true),
    decreases mask.len(),
{
    broadcast use vstd::seq_lib::group_to_multiset_ensures;

    if mask.len() > 0 {
        lemma_count(mask.drop_last());
        assert(mask.drop_last().push(mask.last()) =~= mask);
    }
}

/// The bytes of a buffer are the contents of its ring, and its length is their number.
pub proof fn law_bytes(state: MaskedState)
    ensures
        state.bytes() == state.ring.contents,
        state.len() == state.ring.contents.len(),
{
}

/// A new buffer is over the given ring, and everything in it is to be transmitted.
pub proof fn law_new_effect(ring: RingState<u8>)
    ensures
        MaskedState::unmasked(ring).ring == ring,
        MaskedState::unmasked(ring).mask.len() == ring.contents.len(),
        forall|i: int|
            0 <= i < ring.contents.len() ==> #[trigger] MaskedState::unmasked(ring).mask[i],
{
}

/// Clearing a buffer clears its ring and its mask.
pub proof fn law_clear_effect(state: MaskedState)
    ensures
        state.cleared().ring == state.ring.cleared(),
        state.cleared().mask.len() == 0,
{
}

/// Enqueuing data appends as many equal flags to the mask.
pub proof fn law_enqueue_effect(state: MaskedState, data: Seq<u8>, flag: bool)
    ensures
        ({
            let after = state.enqueued(data, flag);
            &&& after.ring == state.ring.enqueued(data)
            &&& after.mask.len() == state.mask.len() + data.len()
            &&& forall|i: int|
                0 <= i < after.mask.len() ==> #[trigger] after.mask[i] == if i
                    < state.mask.len() {
                    state.mask[i]
                } else {
                    flag
                }
        }),
{
}

/// Enqueuing what a caller has written, or free slots as they are, appends as many set flags to
/// the mask.
pub proof fn law_enqueue_slots_effect(state: MaskedState, written: Seq<u8>, n: int)
    requires
        0 <= n,
    ensures
        state.enqueued_with(written, n).ring == state.ring.enqueued_with(written, n),
        state.allocated(n).ring == state.ring.allocated(n),
        state.allocated(n).mask == state.enqueued_with(written, n).mask,
        state.allocated(n).mask.len() == state.mask.len() + n,
        forall|i: int|
            0 <= i < state.mask.len() + n ==> #[trigger] state.allocated(n).mask[i] == (i
                < state.mask.len() ==> state.mask[i]),
{
}

/// Writing to the free slots, or over the first bytes, does to the ring what it says and leaves
/// the mask alone.
pub proof fn law_write_effect(state: MaskedState, offset: int, data: Seq<u8>)
    ensures
        state.with_free(offset, data).ring == state.ring.with_free(offset, data),
        state.with_free(offset, data).mask == state.mask,
        state.with_front(data).ring == state.ring.with_front(data),
        state.with_front(data).mask == state.mask,
{
}

/// Dequeuing bytes takes their flags off the front of the mask.
pub proof fn law_dequeue_effect(state: MaskedState, n: int)
    requires
        0 <= n <= state.mask.len(),
    ensures
        ({
            let after = state.dequeued(n);
            &&& after.ring == state.ring.dequeued(n)
            &&& after.mask.len() == state.mask.len() - n
            &&& forall|i: int|
                0 <= i < after.mask.len() ==> #[trigger] after.mask[i] == state.mask[n + i]
        }),
{
}

/// Flagging a range sets the flags in it, as far as there are bytes, and changes nothing else.
pub proof fn law_flag_effect(state: MaskedState, offset: int, size: int, flag: bool)
    ensures
        ({
            let after = state.flagged(offset, size, flag);
            &&& after.ring == state.ring
            &&& after.mask.len() == state.mask.len()
            &&& forall|i: int|
                0 <= i < state.mask.len() ==> #[trigger] after.mask[i] == if offset <= i && i
                    - offset < size {
                    flag
                } else {
                    state.mask[i]
                }
        }),
{
}

/// The number of bytes to transmit is the number of set flags.
pub proof fn law_count(state: MaskedState)
    ensures
        state.transmit_len() == state.mask.to_multiset().count(true),
{
    lemma_count(state.mask);
}

/// The next byte to transmit is the first one, from the start on, whose flag is set; there is one
/// if any flag from the start on is set.
pub proof fn law_next(state: MaskedState, start: int)
    requires
        state.mask.len() == state.ring.contents.len(),
        0 <= start,
    ensures
        state.next_transmittable(start) matches Some(at) ==> {
            &&& start <= at < state.mask.len()
            &&& state.mask[at]
            &&& forall|i: int| start <= i < at ==> !state.mask[i]
        },
        state.next_transmittable(start) is None ==> forall|i: int|
            start <= i < state.mask.len() ==> !state.mask[i],
{
    if start <= state.mask.len() {
        lemma_first_flag(state.mask, true, start, state.mask.len() as int);
    }
}

/// A range is all to be transmitted if and only if it ends within the buffer and all its flags are
/// set.
pub proof fn law_range(state: MaskedState, offset: int, size: int)
    requires
        state.mask.len() == state.ring.contents.len(),
        0 <= offset,
        0 <= size,
    ensures
        state.all_transmittable(offset, size) == (offset + size <= state.mask.len() && forall|
            i: int,
        |
            offset <= i < offset + size ==> state.mask[i]),
{
}

/// What is found to transmit in a range is the first run of bytes whose flags are set: the bytes
/// skipped before it have clear flags, and it ends at the end of the range, at the end of the
/// buffer, or at a clear flag. It is empty only if no flag in the range is set.
pub proof fn law_first_run(state: MaskedState, offset: int, size: int)
    requires
        state.mask.len() == state.ring.contents.len(),
        0 <= state.ring.head,
        state.ring.head < state.ring.contents.len() + state.ring.free.len() || state.ring.head
            == 0,
        0 <= offset,
        0 <= size,
    ensures
        offset >= state.ring.contents.len() ==> state.transmittable(offset, size).len() == 0,
        offset < state.ring.contents.len() ==> {
            let limit = if offset + size < state.ring.contents.len() {
                offset + size
            } else {
                state.ring.contents.len() as int
            };
            exists|start: int, end: int|
                {
                    &&& offset <= start <= end <= limit
                    &&& state.transmittable(offset, size)
                        == #[trigger] state.ring.contents.subrange(start, end)
                    &&& forall|i: int| offset <= i < start ==> !state.mask[i]
                    &&& forall|i: int| start <= i < end ==> state.mask[i]
                    &&& end == limit || !state.mask[end]
                    &&& start == end ==> end == limit
                }
        },
{
    if offset < state.ring.contents.len() {
        law_transmittable_run(state, offset, size);
        assert(state.transmittable(offset, size) == state.ring.contents.subrange(
            state.run_start(offset, size),
            state.run_end(offset, size),
        ));
    }
}

/// What is found by looking at a longer range starts with what is found, if anything, by looking at
/// a shorter one.
pub proof fn law_longer_range(state: MaskedState, offset: int, size: int, more: int)
    requires
        state.mask.len() == state.ring.contents.len(),
        0 <= state.ring.head,
        state.ring.head < state.ring.contents.len() + state.ring.free.len() || state.ring.head
            == 0,
        0 <= offset,
        0 <= size <= more,
    ensures
        state.transmittable(offset, size).len() > 0 ==> {
            &&& state.transmittable(offset, size).len() <= state.transmittable(offset, more).len()
            &&& forall|i: int|
                0 <= i < state.transmittable(offset, size).len() ==> (#[trigger] state.transmittable(
                    offset,
                    size,
                )[i]) == state.transmittable(offset, more)[i]
        },
{
    if offset < state.ring.contents.len() {
        law_transmittable_run(state, offset, size);
        law_transmittable_run(state, offset, more);
        let (a, b) = (state.run_start(offset, size), state.run_end(offset, size));
        let (c, d) = (state.run_start(offset, more), state.run_end(offset, more));
        if a < b {
            assert(state.mask[a]);
            assert(a == c) by {
                if c < a {
                    assert(state.mask[c]);
                }
                if a < c {
                    assert(!state.mask[a]);
                }
            }
            assert(b <= d) by {
                if d < b {
                    assert(state.mask[d]);
                }
            }
        }
    }
}

/// Looking for data to transmit shows the flags of the slots in the range, those of free slots
/// being set.
pub proof fn law_shown_flags(state: MaskedState, offset: int, size: int)
    requires
        state.mask.len() == state.ring.contents.len(),
        0 <= offset,
        0 <= size,
    ensures
        ({
            let capacity = (state.ring.contents.len() + state.ring.free.len()) as int;
            let shown = state.flags_in(offset, size);
            &&& offset >= capacity ==> shown.len() == 0
            &&& offset < capacity ==> {
                &&& shown.len() <= size
                &&& offset + shown.len() <= capacity
                &&& shown.len() == size || offset + shown.len() == capacity
                &&& forall|i: int|
                    0 <= i < shown.len() ==> #[trigger] shown[i] == (offset + i
                        < state.mask.len() ==> state.mask[offset + i])
            }
        }),
{
}

/// As few bytes are dequeued for `n` bytes to transmit as can be: with them, `n` set flags have
/// come off the mask, or all bytes have; with one byte fewer, not yet.
pub proof fn law_span(state: MaskedState, n: int)
    requires
        0 <= n,
    ensures
        ({
            let span = state.span(n);
            &&& 0 <= span <= state.mask.len()
            &&& state.mask.take(span).to_multiset().count(true) <= n
            &&& span == state.mask.len() || state.mask.take(span).to_multiset().count(true) == n
            &&& forall|k: int|
                0 <= k < span ==> (#[trigger] state.mask.take(k)).to_multiset().count(true) < n
        }),
{
    let span = state.span(n);
    assert(state.mask.take(0) =~= Seq::empty());
    lemma_scan(state.mask, n, 0);
    lemma_count(state.mask.take(span));
    assert forall|k: int| 0 <= k < span implies (#[trigger] state.mask.take(
        k,
    )).to_multiset().count(true) < n by {
        lemma_count(state.mask.take(k));
    }
}

/// A scan goes on as long as it has not passed enough set flags.
proof fn lemma_scan(mask: Seq<bool>, n: int, at: int)
    requires
        0 <= n,
        0 <= at <= mask.len(),
    ensures
        at <= scan_end(mask, n, at) <= mask.len(),
        count_set(mask.take(scan_end(mask, n, at))) <= count_set(mask.take(at)) + n,
        scan_end(mask, n, at) == mask.len() || count_set(mask.take(scan_end(mask, n, at)))
            == count_set(mask.take(at)) + n,
        forall|k: int|
            at <= k < scan_end(mask, n, at) ==> count_set(#[trigger] mask.take(k)) < count_set(
                mask.take(at),
            ) + n,
    decreases mask.len() - at,
{
    if at < mask.len() && n > 0 {
        assert(mask.take(at + 1).drop_last() =~= mask.take(at));
        let rest = if mask[at] {
            n - 1
        } else {
            n
        };
        lemma_scan(mask, rest, at + 1);
    }
}

/// As many dequeued bytes come out as bytes to transmit as have their flags set, and all others
/// come out as the bytes that are not.
pub proof fn law_dequeue_lens(state: MaskedState, n: int)
    requires
        state.mask.len() == state.ring.contents.len(),
        0 <= n,
    ensures
        ({
            let span = state.span(n);
            let bytes = state.bytes().take(span);
            let mask = state.mask.take(span);
            let total = state.mask.take(span).to_multiset().count(true);
            &&& select(bytes, mask, true).len() == total
            &&& select(bytes, mask, false).len() == span - total
        }),
{
    let span = state.span(n);
    law_span(state, n);
    lemma_select_len(state.bytes().take(span), state.mask.take(span));
    lemma_count(state.mask.take(span));
}

/// The dequeued bytes whose flags are set come out in the order of the buffer, and so do the
/// others: the byte at position `i` is preceded by as many as have the same flag and lie before
/// it.
pub proof fn law_dequeue_order(state: MaskedState, n: int, i: int)
    requires
        state.mask.len() == state.ring.contents.len(),
        0 <= n,
        0 <= i,
    ensures
        ({
            let span = state.span(n);
            let bytes = state.bytes().take(span);
            let mask = state.mask.take(span);
            let set = select(bytes, mask, true);
            let clear = select(bytes, mask, false);
            let c = state.mask.take(i).to_multiset().count(true) as int;
            i < span ==> {
                &&& 0 <= c <= i
                &&& state.mask[i] ==> c < set.len() && set[c] == state.ring.contents[i]
                &&& !state.mask[i] ==> i - c < clear.len() && clear[i - c]
                    == state.ring.contents[i]
            }
        }),
{
    let span = state.span(n);
    law_span(state, n);
    if i < span {
        let mask = state.mask.take(span);
        lemma_select_at(state.bytes().take(span), mask, i);
        lemma_count(state.mask.take(i));
        assert(mask.take(i) =~= state.mask.take(i));
    }
}

/// As many bytes are selected as have the flag.
proof fn lemma_select_len(bytes: Seq<u8>, mask: Seq<bool>)
    requires
        bytes.len() == mask.len(),
    ensures
        count_set(mask) <= mask.len(),
        select(bytes, mask, true).len() == count_set(mask),
        select(bytes, mask, false).len() == mask.len() - count_set(mask),
    decreases bytes.len(),
{
    if bytes.len() > 0 {
        lemma_select_len(bytes.drop_last(), mask.drop_last());
    }
}

/// Selecting keeps the order.
proof fn lemma_select_at(bytes: Seq<u8>, mask: Seq<bool>, i: int)
    requires
        bytes.len() == mask.len(),
        0 <= i < mask.len(),
    ensures
        ({
            let c = count_set(mask.take(i)) as int;
            let set = select(bytes, mask, true);
            let clear = select(bytes, mask, false);
            &&& 0 <= c <= i
            &&& mask[i] ==> c < set.len() && set[c] == bytes[i]
            &&& !mask[i] ==> i - c < clear.len() && clear[i - c] == bytes[i]
        }),
    decreases bytes.len(),
{
    let fewer = bytes.drop_last();
    let shorter = mask.drop_last();
    lemma_select_len(fewer, shorter);
    if i < shorter.len() {
        lemma_select_at(fewer, shorter, i);
        assert(shorter.take(i) =~= mask.take(i));
    } else {
        assert(mask.take(i) =~= shorter);
    }
}

} // verus!
