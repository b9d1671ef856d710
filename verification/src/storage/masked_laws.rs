//! What holds of every masked socket buffer.

use vstd::prelude::*;

use super::masked_state::{count_set, flags, lemma_first_flag, scan_end, select, MaskedState};
use super::ring_state::min;

verus! {

/// Data only ever goes on top: an enqueue appends the bytes and their flags to what is there,
/// and changes neither the capacity nor anything that was there before.
pub proof fn law_enqueue_appends(state: MaskedState, data: Seq<u8>, flag: bool)
    requires
        state.wf(),
        data.len() <= state.ring.free.len(),
    ensures
        state.enqueued(data, flag).wf(),
        state.enqueued(data, flag).bytes() == state.bytes() + data,
        state.enqueued(data, flag).mask == state.mask + flags(data.len() as int, flag),
        state.enqueued(data, flag).ring.capacity() == state.ring.capacity(),
{
    state.ring.lemma_enqueued_len(data, data.len() as int);
    assert(data.take(data.len() as int) =~= data);
}

/// The same holds where the caller fills the free slots itself: the first `n` of what it has
/// written are appended.
pub proof fn law_enqueue_with_appends(state: MaskedState, written: Seq<u8>, n: int)
    requires
        state.wf(),
        written.len() == state.ring.enqueue_slots().len(),
        0 <= n <= written.len(),
    ensures
        state.enqueued_with(written, n).wf(),
        state.enqueued_with(written, n).bytes() == state.bytes() + written.take(n),
        state.enqueued_with(written, n).mask == state.mask + flags(n, true),
        state.enqueued_with(written, n).ring.capacity() == state.ring.capacity(),
{
    state.ring.lemma_cleared_capacity();
    state.ring.lemma_enqueued_len(written, n);
}

/// The same holds where free slots are allocated as they are.
pub proof fn law_allocate_appends(state: MaskedState, n: int)
    requires
        state.wf(),
        0 <= n <= state.ring.free.len(),
    ensures
        state.allocated(n).wf(),
        state.allocated(n).bytes() == state.bytes() + state.ring.free.take(n),
        state.allocated(n).mask == state.mask + flags(n, true),
        state.allocated(n).ring.capacity() == state.ring.capacity(),
{
}

/// Writing data to the free slots, at the start of them or further on, changes nothing that is
/// allocated. Once as many slots are allocated, the buffer holds what it would hold if the data
/// had been enqueued in order.
pub proof fn law_write_then_allocate(state: MaskedState, first: Seq<u8>, second: Seq<u8>)
    requires
        state.wf(),
        first.len() + second.len() <= state.ring.free.len(),
    ensures
        ({
            let written = state.with_free(first.len() as int, second).with_free(0, first);
            let after = written.allocated((first.len() + second.len()) as int);
            let enqueued = state.enqueued(first + second, true);
            &&& written.wf()
            &&& written.bytes() == state.bytes()
            &&& written.mask == state.mask
            &&& after.wf()
            &&& after.bytes() == enqueued.bytes()
            &&& after.mask == enqueued.mask
            &&& after.ring.capacity() == state.ring.capacity()
        }),
{
    let n = (first.len() + second.len()) as int;
    let written = state.with_free(first.len() as int, second).with_free(0, first);
    assert(written.ring.free.take(n) =~= first + second);
    law_enqueue_appends(state, first + second, true);
}

/// Dequeuing takes the oldest bytes away. The bytes that stay keep their order and their flags,
/// and the capacity stays the same.
pub proof fn law_dequeue(state: MaskedState, n: int)
    requires
        state.wf(),
        0 <= n <= state.len(),
    ensures
        state.dequeued(n).wf(),
        state.dequeued(n).ring.capacity() == state.ring.capacity(),
        state.dequeued(n).len() == state.len() - n,
        state.bytes().take(n) + state.dequeued(n).bytes() == state.bytes(),
        forall|i: int|
            0 <= i < state.len() - n ==> #[trigger] state.dequeued(n).bytes()[i]
                == state.bytes()[i + n],
        forall|i: int|
            0 <= i < state.len() - n ==> #[trigger] state.dequeued(n).mask[i] == state.mask[i
                + n],
{
    state.ring.lemma_dequeued_len(state.bytes().take(n), n);
    assert(state.ring.with_front(state.bytes().take(n)) =~= state.ring);
    assert(state.bytes().take(n) + state.dequeued(n).bytes() =~= state.bytes());
}

/// Whatever the caller leaves in the bytes that are dequeued, the bytes that stay are the same.
pub proof fn law_dequeued_bytes_are_gone(state: MaskedState, written: Seq<u8>)
    requires
        state.wf(),
        written.len() <= state.len(),
    ensures
        ({
            let n = written.len() as int;
            let after = state.with_front(written).dequeued(n);
            &&& after.wf()
            &&& after.bytes() == state.dequeued(n).bytes()
            &&& after.mask == state.dequeued(n).mask
            &&& after.ring.capacity() == state.ring.capacity()
        }),
{
    let n = written.len() as int;
    state.ring.lemma_dequeued_len(written, n);
    assert(state.with_front(written).dequeued(n).bytes() =~= state.dequeued(n).bytes());
}

/// First in, first out: what was enqueued behind `state` comes out, with its flag, once what was
/// there before is dequeued.
pub proof fn law_first_in_first_out(state: MaskedState, data: Seq<u8>, flag: bool)
    requires
        state.wf(),
        data.len() <= state.ring.free.len(),
    ensures
        state.enqueued(data, flag).dequeued(state.len()).bytes() == data,
        state.enqueued(data, flag).dequeued(state.len()).mask == flags(data.len() as int, flag),
{
    law_enqueue_appends(state, data, flag);
    assert((state.bytes() + data).skip(state.len()) =~= data);
    assert((state.mask + flags(data.len() as int, flag)).skip(state.len()) =~= flags(
        data.len() as int,
        flag,
    ));
}

/// A cleared buffer is empty, has nothing to transmit, and has its whole capacity free.
pub proof fn law_clear(state: MaskedState)
    requires
        state.wf(),
    ensures
        state.cleared().wf(),
        state.cleared().len() == 0,
        state.cleared().transmit_len() == 0,
        state.cleared().ring.free.len() == state.ring.capacity(),
{
    state.ring.lemma_cleared_capacity();
}

/// Marking bytes as sent, or as to be transmitted again, touches no byte and no flag outside the
/// range, and sets the flags within it.
pub proof fn law_flagging(state: MaskedState, offset: int, size: int, flag: bool)
    requires
        state.wf(),
    ensures
        state.flagged(offset, size, flag).wf(),
        state.flagged(offset, size, flag).ring == state.ring,
        forall|i: int|
            0 <= i < state.len() ==> #[trigger] state.flagged(offset, size, flag).mask[i] == if offset
                <= i < offset + size {
                flag
            } else {
                state.mask[i]
            },
{
}

/// Data marked as already sent is not transmitted: no run to transmit is found in the range.
pub proof fn law_already_sent_is_left_out(state: MaskedState, offset: int, size: int)
    requires
        state.wf(),
        0 <= offset,
        0 <= size,
    ensures
        state.flagged(offset, size, false).transmittable(offset, size).len() == 0,
{
    let after = state.flagged(offset, size, false);
    if offset < after.len() {
        lemma_first_flag(after.mask, true, offset, after.range_end(offset, size));
    }
}

/// Data marked as to be transmitted again is transmitted as a whole, as far as it is in the
/// buffer.
pub proof fn law_reset_is_transmitted(state: MaskedState, offset: int, size: int)
    requires
        state.wf(),
        0 <= offset,
        0 <= size,
    ensures
        state.flagged(offset, size, true).all_transmittable(offset, size) == (offset + size
            <= state.len()),
        state.flagged(offset, size, true).transmittable(offset, size) == state.bytes().subrange(
            min(offset, state.len()),
            min(offset + size, state.len()),
        ),
{
    let after = state.flagged(offset, size, true);
    if offset < state.len() {
        law_transmittable_run(after, offset, size);
    }
    assert(after.transmittable(offset, size) =~= state.bytes().subrange(
        min(offset, state.len()),
        min(offset + size, state.len()),
    ));
}

/// Marking data that was all to be transmitted as sent, and then as to be transmitted again,
/// changes nothing.
pub proof fn law_mark_and_reset(state: MaskedState, offset: int, size: int)
    requires
        state.wf(),
        forall|i: int|
            offset <= i < offset + size && 0 <= i < state.len() ==> state.mask[i],
    ensures
        state.flagged(offset, size, false).flagged(offset, size, true) == state,
{
    assert(state.flagged(offset, size, false).flagged(offset, size, true) =~= state);
}

/// What is found to transmit is a run of the buffer's bytes within the range looked at. All of
/// its bytes are to be transmitted. None of those that were skipped are, and the run ends only
/// at the end of the range or at a byte that is not to be transmitted.
pub proof fn law_transmittable_run(state: MaskedState, offset: int, size: int)
    requires
        state.wf(),
        0 <= offset < state.len(),
        0 <= size,
    ensures
        ({
            let start = state.run_start(offset, size);
            let end = state.run_end(offset, size);
            let limit = state.range_end(offset, size);
            &&& offset <= start <= end <= limit
            &&& state.transmittable(offset, size) == state.bytes().subrange(start, end)
            &&& forall|i: int| start <= i < end ==> state.mask[i]
            &&& forall|i: int| offset <= i < start ==> !state.mask[i]
            &&& end < limit ==> !state.mask[end]
            &&& start == end ==> start == limit
        }),
{
    let limit = state.range_end(offset, size);
    let start = state.run_start(offset, size);
    lemma_first_flag(state.mask, true, offset, limit);
    lemma_first_flag(state.mask, false, start, limit);
}

/// Something to transmit is found in a range if and only if the next byte to be transmitted lies
/// in it; what is found then starts with that byte.
pub proof fn law_next_starts_run(state: MaskedState, offset: int, size: int)
    requires
        state.wf(),
        0 <= offset,
        0 <= size,
    ensures
        (state.transmittable(offset, size).len() > 0) == (state.next_transmittable(offset) matches
            Some(at) && at < offset + size),
        state.transmittable(offset, size).len() > 0 ==> {
            &&& state.run_start(offset, size) == state.next_transmittable(offset)->0
            &&& state.transmittable(offset, size)[0]
                == state.bytes()[state.next_transmittable(offset)->0]
        },
{
    if offset < state.len() {
        law_transmittable_run(state, offset, size);
        law_next_transmittable(state, offset);
    }
}

/// The next offset is the first one, from the given one on, whose byte is to be transmitted.
pub proof fn law_next_transmittable(state: MaskedState, start: int)
    requires
        state.wf(),
        0 <= start,
    ensures
        match state.next_transmittable(start) {
            Some(at) => {
                &&& start <= at < state.len()
                &&& state.mask[at]
                &&& forall|i: int| start <= i < at ==> !state.mask[i]
            },
            None => forall|i: int| start <= i < state.len() ==> !state.mask[i],
        },
{
    if start <= state.len() {
        lemma_first_flag(state.mask, true, start, state.len());
    }
}

/// A range that is all to be transmitted is found as a whole.
pub proof fn law_fully_transmittable(state: MaskedState, offset: int, size: int)
    requires
        state.wf(),
        0 <= offset,
        0 <= size,
        state.all_transmittable(offset, size),
    ensures
        state.transmittable(offset, size) == state.bytes().subrange(offset, offset + size),
{
    if offset < state.len() {
        law_transmittable_run(state, offset, size);
    }
    assert(state.transmittable(offset, size) =~= state.bytes().subrange(offset, offset + size));
}

/// There are never more bytes to transmit than there are bytes, and as many only if the whole
/// buffer is to be transmitted.
pub proof fn law_transmit_len(state: MaskedState)
    requires
        state.wf(),
    ensures
        state.transmit_len() <= state.len(),
        state.transmit_len() == state.len() <==> state.all_transmittable(0, state.len()),
        state.transmit_len() == 0 <==> state.next_transmittable(0) is None,
{
    lemma_count_bounds(state.mask);
    lemma_first_flag(state.mask, true, 0, state.len());
}

/// An enqueue adds what it enqueues to what is to be transmitted, unless it was already sent.
pub proof fn law_enqueue_counts(state: MaskedState, data: Seq<u8>, flag: bool)
    requires
        state.wf(),
        data.len() <= state.ring.free.len(),
    ensures
        state.enqueued(data, flag).transmit_len() == state.transmit_len() + if flag {
            data.len()
        } else {
            0
        },
{
    lemma_count_add(state.mask, flags(data.len() as int, flag));
    lemma_count_flags(data.len() as int, flag);
}

/// Packets that were all sent by the FPGA end up in the buffer in the order in which they were
/// enqueued, and leave nothing for the host to send that it did not have to send before.
pub proof fn law_injection(state: MaskedState, packet: Seq<u8>, reply: Seq<u8>)
    requires
        state.wf(),
        packet.len() + reply.len() <= state.ring.free.len(),
    ensures
        ({
            let after = state.enqueued(packet, false).enqueued(reply, false);
            &&& after.wf()
            &&& after.bytes() == state.bytes() + packet + reply
            &&& after.transmit_len() == state.transmit_len()
            &&& after.next_transmittable(0) == state.next_transmittable(0)
        }),
{
    let middle = state.enqueued(packet, false);
    let after = middle.enqueued(reply, false);
    law_enqueue_appends(state, packet, false);
    law_enqueue_appends(middle, reply, false);
    law_enqueue_counts(state, packet, false);
    law_enqueue_counts(middle, reply, false);
    law_next_transmittable(state, 0);
    law_next_transmittable(after, 0);
    assert(forall|i: int| 0 <= i < state.len() ==> after.mask[i] == state.mask[i]);
    assert(forall|i: int| state.len() <= i < after.len() ==> !after.mask[i]);
    match (state.next_transmittable(0), after.next_transmittable(0)) {
        (Some(a), Some(b)) => {
            assert(after.mask[a] && state.mask[a]);
            assert(after.mask[b]);
            assert(b < state.len());
            assert(state.mask[b]);
        },
        (Some(a), None) => {
            assert(after.mask[a]);
        },
        (None, Some(b)) => {
            assert(after.mask[b]);
            assert(state.mask[b]);
        },
        (None, None) => {},
    }
}

/// Dequeuing `n` bytes that are to be transmitted yields that many, or all there are if there are
/// fewer. What comes with them is not to be transmitted; the two together are what was dequeued.
/// What is left to transmit is the rest.
pub proof fn law_dequeue_transmittable(state: MaskedState, n: int)
    requires
        state.wf(),
        0 <= n,
    ensures
        ({
            let span = state.span(n);
            let bytes = state.bytes().take(span);
            let mask = state.mask.take(span);
            let sent = select(bytes, mask, true);
            let skipped = select(bytes, mask, false);
            &&& 0 <= span <= state.len()
            &&& sent.len() == min(n, state.transmit_len() as int)
            &&& sent.len() + skipped.len() == span
            &&& bytes.to_multiset() == sent.to_multiset().add(skipped.to_multiset())
            &&& state.dequeued(span).transmit_len() == state.transmit_len() - sent.len()
        }),
{
    let span = state.span(n);
    lemma_scan_end(state.mask, n, 0);
    let bytes = state.bytes().take(span);
    let mask = state.mask.take(span);
    lemma_select(bytes, mask);
    assert(state.mask.take(0) =~= Seq::empty());
    assert(mask + state.mask.skip(span) =~= state.mask);
    lemma_count_add(mask, state.mask.skip(span));
    if span == state.len() {
        assert(mask =~= state.mask);
    }
}

/// No more is dequeued than it takes: a dequeue for `n` bytes to be transmitted, if it finds any,
/// ends with one.
pub proof fn law_dequeue_transmittable_is_tight(state: MaskedState, n: int)
    requires
        state.wf(),
        0 < n <= state.transmit_len(),
    ensures
        0 < state.span(n) <= state.len(),
        state.mask[state.span(n) - 1],
{
    assert(state.mask.take(0) =~= Seq::empty());
    lemma_scan_end(state.mask, n, 0);
    lemma_scan_tight(state.mask, n, 0);
}

/// The count of a mask is at most its length; it is the length only if all flags are set, and
/// zero only if none is.
proof fn lemma_count_bounds(mask: Seq<bool>)
    ensures
        count_set(mask) <= mask.len(),
        count_set(mask) == mask.len() <==> forall|i: int| 0 <= i < mask.len() ==> mask[i],
        count_set(mask) == 0 <==> forall|i: int| 0 <= i < mask.len() ==> !mask[i],
    decreases mask.len(),
{
    if mask.len() > 0 {
        let shorter = mask.drop_last();
        lemma_count_bounds(shorter);
        assert(forall|i: int| 0 <= i < shorter.len() ==> shorter[i] == mask[i]);
        assert(mask.last() == mask[mask.len() - 1]);
        if forall|i: int| 0 <= i < mask.len() ==> mask[i] {
            assert(forall|i: int| 0 <= i < shorter.len() ==> shorter[i]);
        }
        if forall|i: int| 0 <= i < mask.len() ==> !mask[i] {
            assert(forall|i: int| 0 <= i < shorter.len() ==> !shorter[i]);
        }
        if count_set(mask) == mask.len() || count_set(mask) == 0 {
            assert forall|i: int| 0 <= i < mask.len() implies mask[i] == mask.last() by {
                if i < shorter.len() {
                    assert(shorter[i] == mask[i]);
                }
            }
        }
    }
}

/// The count of two masks, one behind the other, is the sum of their counts.
proof fn lemma_count_add(a: Seq<bool>, b: Seq<bool>)
    ensures
        count_set(a + b) == count_set(a) + count_set(b),
    decreases b.len(),
{
    if b.len() == 0 {
        assert(a + b =~= a);
    } else {
        assert((a + b).drop_last() =~= a + b.drop_last());
        lemma_count_add(a, b.drop_last());
    }
}

/// The count of equal flags.
proof fn lemma_count_flags(n: int, flag: bool)
    requires
        0 <= n,
    ensures
        count_set(flags(n, flag)) == if flag {
            n
        } else {
            0
        },
    decreases n,
{
    if n > 0 {
        assert(flags(n, flag).drop_last() =~= flags(n - 1, flag));
        lemma_count_flags(n - 1, flag);
    }
}

/// What a scan passes over: `n` set flags, or all there are.
proof fn lemma_scan_end(mask: Seq<bool>, n: int, at: int)
    requires
        0 <= n,
        0 <= at <= mask.len(),
    ensures
        at <= scan_end(mask, n, at) <= mask.len(),
        count_set(mask.take(scan_end(mask, n, at))) <= count_set(mask.take(at)) + n,
        scan_end(mask, n, at) < mask.len() ==> count_set(mask.take(scan_end(mask, n, at)))
            == count_set(mask.take(at)) + n,
        count_set(mask.take(scan_end(mask, n, at))) == min(
            count_set(mask.take(at)) + n,
            count_set(mask) as int,
        ),
    decreases mask.len() - at,
{
    assert(mask.take(mask.len() as int) =~= mask);
    assert(mask.take(at) + mask.skip(at) =~= mask);
    lemma_count_add(mask.take(at), mask.skip(at));
    if at < mask.len() && n > 0 {
        assert(mask.take(at + 1).drop_last() =~= mask.take(at));
        lemma_scan_end(
            mask,
            if mask[at] {
                n - 1
            } else {
                n
            },
            at + 1,
        );
    }
}

/// A scan that finds all it looks for stops right behind the last of it.
proof fn lemma_scan_tight(mask: Seq<bool>, n: int, at: int)
    requires
        0 < n,
        0 <= at <= mask.len(),
        count_set(mask.take(at)) + n <= count_set(mask),
    ensures
        scan_end(mask, n, at) > at,
        mask[scan_end(mask, n, at) - 1],
    decreases mask.len() - at,
{
    assert(mask.take(mask.len() as int) =~= mask);
    if at == mask.len() {
        assert(false);
    }
    assert(mask.take(at + 1).drop_last() =~= mask.take(at));
    if mask[at] {
        if n > 1 {
            lemma_scan_tight(mask, n - 1, at + 1);
        }
    } else {
        lemma_scan_tight(mask, n, at + 1);
    }
}

/// Selecting by a flag and by its opposite parts the bytes in two.
proof fn lemma_select(bytes: Seq<u8>, mask: Seq<bool>)
    requires
        bytes.len() == mask.len(),
    ensures
        select(bytes, mask, true).len() == count_set(mask),
        select(bytes, mask, true).len() + select(bytes, mask, false).len() == bytes.len(),
        bytes.to_multiset() == select(bytes, mask, true).to_multiset().add(
            select(bytes, mask, false).to_multiset(),
        ),
    decreases bytes.len(),
{
    broadcast use vstd::seq_lib::group_to_multiset_ensures;

    let set = select(bytes, mask, true);
    let clear = select(bytes, mask, false);
    if bytes.len() == 0 {
        assert(bytes.to_multiset() =~= set.to_multiset().add(clear.to_multiset()));
    } else {
        lemma_select(bytes.drop_last(), mask.drop_last());
        let last = bytes.last();
        let before = select(bytes.drop_last(), mask.drop_last(), true).to_multiset().add(
            select(bytes.drop_last(), mask.drop_last(), false).to_multiset(),
        );
        assert(bytes.drop_last().push(last) =~= bytes);
        assert(bytes.to_multiset() =~= before.insert(last));
        assert(set.to_multiset().add(clear.to_multiset()) =~= before.insert(last));
    }
}

} // verus!
