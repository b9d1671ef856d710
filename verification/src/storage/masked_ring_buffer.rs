//! A ring buffer that knows which of its bytes are still to be transmitted.

use vstd::prelude::*;
use vstd::slice::{slice_subrange, slice_to_vec};

use super::debug_text::{bytes_text, push_byte, push_decimal};
use super::masked_state::{count_set, first_flag, flags, lemma_first_flag, scan_end, select, MaskedState};
use super::ring_buffer::RingBuffer;
use super::ring_state::min;

verus! {

/// A ring buffer with transmission masking capability.
///
/// Bytes can be marked as "already transmitted" (by NIC hardware, say), so that they are not
/// transmitted again by the software stack, while they stay in the buffer for a potential
/// retransmission.
pub struct MaskedSocketBuffer<'a> {
    buffer: RingBuffer<'a, u8>,
    /// For each position, whether the byte there is to be transmitted. The positions past the
    /// last allocated byte are all set.
    mask: Vec<bool>,
}

/// What there is to report about one look for data to transmit.
pub struct TransmitTrace {
    /// How many bytes the buffer holds.
    pub buffer_len: usize,
    /// How many flags the mask has, one for each slot.
    pub mask_len: usize,
    /// The contiguous bytes at the start of the range looked at.
    pub data: Vec<u8>,
    /// The flags of the slots in the range looked at.
    pub mask: Vec<bool>,
    /// The data to transmit that was found.
    pub result: Vec<u8>,
}

impl<'a> View for MaskedSocketBuffer<'a> {
    type V = MaskedState;

    closed spec fn view(&self) -> MaskedState {
        MaskedState {
            ring: self.buffer@,
            mask: self.mask@.take(self.buffer@.contents.len() as int),
        }
    }
}

/// Sets the flags at positions `from..to` to `flag`.
fn set_flags(mask: &mut Vec<bool>, from: usize, to: usize, flag: bool)
    requires
        to <= old(mask)@.len(),
    ensures
        final(mask)@ == Seq::new(
            old(mask)@.len(),
            |i: int|
                if from <= i < to {
                    flag
                } else {
                    old(mask)@[i]
                },
        ),
{
    let mut at: usize = from;
    while at < to
        invariant
            from <= at,
            at <= to || at == from,
            to <= mask@.len(),
            mask@ == Seq::new(
                old(mask)@.len(),
                |i: int|
                    if from <= i < at {
                        flag
                    } else {
                        old(mask)@[i]
                    },
            ),
        decreases to - at,
    {
        mask[at] = flag;
        at = at + 1;
    }
    assert(mask@ =~= Seq::new(
        old(mask)@.len(),
        |i: int|
            if from <= i < to {
                flag
            } else {
                old(mask)@[i]
            },
    ));
}

/// Drops the first `n` flags and appends as many set ones.
fn drop_flags(mask: &mut Vec<bool>, n: usize)
    requires
        n <= old(mask)@.len(),
    ensures
        final(mask)@ == old(mask)@.skip(n as int) + flags(n as int, true),
{
    let size: usize = mask.len();
    let mut at: usize = 0;
    while at < size
        invariant
            at <= size,
            n <= size,
            size == mask@.len(),
            size == old(mask)@.len(),
            forall|i: int|
                0 <= i < size ==> mask@[i] == if i >= at {
                    old(mask)@[i]
                } else if i + n < size {
                    old(mask)@[i + n]
                } else {
                    true
                },
        decreases size - at,
    {
        let flag: bool = if at < size - n {
            mask[at + n]
        } else {
            true
        };
        mask[at] = flag;
        at = at + 1;
    }
    assert(mask@ =~= old(mask)@.skip(n as int) + flags(n as int, true));
}

impl<'a> MaskedSocketBuffer<'a> {
    /// There is a flag for each slot, and the flags past the last allocated byte are set.
    pub closed spec fn wf(&self) -> bool {
        &&& self.buffer.wf()
        &&& self.mask@.len() == self.buffer@.capacity()
        &&& forall|i: int| self.buffer@.contents.len() <= i < self.mask@.len() ==> self.mask@[i]
    }

    /// What every masked buffer's state satisfies.
    pub proof fn lemma_wf(&self)
        requires
            self.wf(),
        ensures
            self@.wf(),
            self@.ring.capacity() <= usize::MAX,
            self@.mask.len() == self@.ring.contents.len(),
            0 <= self@.ring.head,
            self@.ring.head < self@.ring.contents.len() + self@.ring.free.len() || self@.ring.head
                == 0,
            self@.ring.contents.len() + self@.ring.free.len() <= usize::MAX,
    {
        self.buffer.lemma_wf();
    }

    /// Creates a masked socket buffer over `buffer`, with everything in it to be transmitted.
    pub fn new(buffer: RingBuffer<'a, u8>) -> (masked: Self)
        requires
            buffer.wf(),
        ensures
            masked.wf(),
            masked@ == MaskedState::unmasked(buffer@),
    {
        Self::from(buffer)
    }

    /// Returns the maximum number of bytes that can be stored.
    pub fn capacity(&self) -> (slots: usize)
        requires
            self.wf(),
        ensures
            slots == self@.ring.capacity(),
    {
        self.buffer.capacity()
    }

    /// Whether the buffer is empty.
    pub fn is_empty(&self) -> (empty: bool)
        requires
            self.wf(),
        ensures
            empty == (self@.len() == 0),
    {
        self.buffer.is_empty()
    }

    /// Whether the buffer is full.
    pub fn is_full(&self) -> (full: bool)
        requires
            self.wf(),
        ensures
            full == (self@.len() == self@.ring.capacity()),
    {
        self.buffer.is_full()
    }

    /// Returns the number of bytes in the buffer.
    pub fn len(&self) -> (length: usize)
        requires
            self.wf(),
        ensures
            length == self@.len(),
    {
        self.buffer.len()
    }

    /// Returns the number of bytes that are to be transmitted.
    pub fn len_to_transmit(&self) -> (count: usize)
        requires
            self.wf(),
        ensures
            count == self@.transmit_len(),
    {
        let length = self.buffer.len();
        let mut count: usize = 0;
        let mut at: usize = 0;
        assert(self@.mask.take(0) =~= Seq::empty());
        while at < length
            invariant
                self.wf(),
                length == self@.len(),
                at <= length,
                count <= at,
                count == count_set(self@.mask.take(at as int)),
            decreases length - at,
        {
            assert(self@.mask.take(at + 1).drop_last() =~= self@.mask.take(at as int));
            if self.mask[at] {
                count = count + 1;
            }
            at = at + 1;
        }
        assert(self@.mask.take(length as int) =~= self@.mask);
        count
    }

    /// Returns the number of bytes that can be read.
    pub fn window(&self) -> (readable: usize)
        requires
            self.wf(),
        ensures
            readable == self@.len(),
    {
        self.buffer.len()
    }

    /// Clears the buffer.
    pub fn clear(&mut self)
        requires
            old(self).wf(),
        ensures
            final(self).wf(),
            final(self)@ == old(self)@.cleared(),
    {
        proof {
            self.lemma_wf();
            self@.ring.lemma_cleared_capacity();
        }
        self.buffer.clear();
        let size: usize = self.mask.len();
        set_flags(&mut self.mask, 0, size, true);
        assert(self@ =~= old(self)@.cleared());
    }

    /// Enqueues as much of `data` as fits, to be transmitted, and returns how much that was.
    pub fn enqueue_slice(&mut self, data: &[u8]) -> (enqueued: usize)
        requires
            old(self).wf(),
        ensures
            final(self).wf(),
            enqueued == min(data@.len() as int, old(self)@.ring.free.len() as int),
            final(self)@ == old(self)@.enqueued(data@.take(enqueued as int), true),
    {
        proof {
            self.lemma_wf();
        }
        let start = self.buffer.len();
        let size = self.buffer.enqueue_slice(data);
        proof {
            old(self)@.ring.lemma_enqueued_len(data@.take(size as int), size as int);
        }
        set_flags(&mut self.mask, start, start + size, true);
        assert(self@ =~= old(self)@.enqueued(data@.take(size as int), true));
        size
    }

    /// Enqueues as much of `data` as fits, marked as already transmitted by somebody else, and
    /// returns how much that was.
    ///
    /// The data is kept for a potential retransmission, but the normal send path leaves it out.
    pub fn enqueue_already_sent(&mut self, data: &[u8]) -> (enqueued: usize)
        requires
            old(self).wf(),
        ensures
            final(self).wf(),
            enqueued == min(data@.len() as int, old(self)@.ring.free.len() as int),
            final(self)@ == old(self)@.enqueued(data@.take(enqueued as int), false),
    {
        proof {
            self.lemma_wf();
        }
        let start = self.buffer.len();
        let size = self.buffer.enqueue_slice(data);
        proof {
            old(self)@.ring.lemma_enqueued_len(data@.take(size as int), size as int);
        }
        set_flags(&mut self.mask, start, start + size, false);
        assert(self@ =~= old(self)@.enqueued(data@.take(size as int), false));
        size
    }
}

impl<'a> MaskedSocketBuffer<'a> {
    /// Calls `f` with the largest contiguous slice of free slots, and enqueues as many of them as
    /// `f` returns, to be transmitted.
    ///
    /// This is the masked equivalent of [`RingBuffer::enqueue_many_with`].
    pub fn enqueue_many_with<F, R>(&mut self, f: F) -> (out: (usize, R))
    where
        F: FnOnce(&mut [u8]) -> (usize, R),

        requires
            old(self).wf(),
            forall|slots: &mut [u8]|
                slots@ == old(self)@.ring.enqueue_slots() ==> #[trigger] call_requires(
                    f,
                    (slots,),
                ),
            forall|slots: &mut [u8], out: (usize, R)|
                slots@ == old(self)@.ring.enqueue_slots() && #[trigger] call_ensures(
                    f,
                    (slots,),
                    out,
                ) ==> out.0 <= slots@.len(),
        ensures
            final(self).wf(),
            exists|slots: &mut [u8]|
                {
                    &&& slots@ == old(self)@.ring.enqueue_slots()
                    &&& #[trigger] call_ensures(f, (slots,), out)
                    &&& final(slots)@.len() == slots@.len()
                    &&& final(self)@ == old(self)@.enqueued_with(final(slots)@, out.0 as int)
                },
    {
        proof {
            self.lemma_wf();
            self@.ring.lemma_cleared_capacity();
        }
        let start = self.buffer.len();
        let out = self.buffer.enqueue_many_with(f);
        let ghost slots = choose|slots: &mut [u8]|
            {
                &&& slots@ == old(self)@.ring.enqueue_slots()
                &&& #[trigger] call_ensures(f, (slots,), out)
                &&& final(slots)@.len() == slots@.len()
                &&& self.buffer@ == old(self)@.ring.enqueued_with(final(slots)@, out.0 as int)
            };
        proof {
            old(self)@.ring.lemma_enqueued_len(final(slots)@, out.0 as int);
        }
        set_flags(&mut self.mask, start, start + out.0, true);
        assert(self@ =~= old(self)@.enqueued_with(final(slots)@, out.0 as int));
        out
    }

    /// The first position in `from..to` whose flag is `flag`, or `to` if there is none.
    fn find_flag(&self, flag: bool, from: usize, to: usize) -> (at: usize)
        requires
            self.wf(),
            to <= self@.len(),
        ensures
            at == first_flag(self@.mask, flag, from as int, to as int),
    {
        let mut at: usize = from;
        while at < to
            invariant
                self.wf(),
                to <= self@.len(),
                first_flag(self@.mask, flag, from as int, to as int) == first_flag(
                    self@.mask,
                    flag,
                    at as int,
                    to as int,
                ),
            decreases to - at,
        {
            if self.mask[at] == flag {
                return at;
            }
            at = at + 1;
        }
        to
    }

    /// Gets the next contiguous chunk of data that should be transmitted.
    ///
    /// Scans forward from `offset`, skips the bytes that are not to be transmitted, and returns
    /// the first contiguous run of bytes that are, as far as it lies within `size` bytes of
    /// `offset`.
    pub fn get_transmittable(&self, offset: usize, size: usize) -> (chunk: Vec<u8>)
        requires
            self.wf(),
        ensures
            chunk@ == self@.transmittable(offset as int, size as int),
    {
        let length = self.buffer.len();
        if offset >= length {
            return Vec::new();
        }
        let end: usize = if size <= length - offset {
            offset + size
        } else {
            length
        };
        let start = self.find_flag(true, offset, end);
        let stop = self.find_flag(false, start, end);
        proof {
            lemma_first_flag(self@.mask, true, offset as int, end as int);
            lemma_first_flag(self@.mask, false, start as int, end as int);
        }
        self.get_unmasked(start, stop)
    }

    /// Reports what [`MaskedSocketBuffer::get_transmittable`] sees and finds in a range. There is
    /// nothing to report about an empty range.
    pub fn trace_transmittable(&self, offset: usize, size: usize) -> (trace: Option<TransmitTrace>)
        requires
            self.wf(),
        ensures
            (trace is None) == (size == 0),
            trace matches Some(t) ==> {
                &&& t.buffer_len == self@.len()
                &&& t.mask_len == self@.ring.capacity()
                &&& t.data@ == self@.ring.chunk(offset as int, size as int)
                &&& t.mask@ == self@.flags_in(offset as int, size as int)
                &&& t.result@ == self@.transmittable(offset as int, size as int)
            },
    {
        if size == 0 {
            return None;
        }
        proof {
            self.lemma_wf();
        }
        let mask_len: usize = self.mask.len();
        let start: usize = if offset < mask_len {
            offset
        } else {
            mask_len
        };
        let end: usize = if size <= mask_len - start {
            start + size
        } else {
            mask_len
        };
        let mask = slice_to_vec(slice_subrange(self.mask.as_slice(), start, end));
        assert(mask@ =~= self@.flags_in(offset as int, size as int));
        Some(
            TransmitTrace {
                buffer_len: self.buffer.len(),
                mask_len,
                data: slice_to_vec(self.buffer.get_allocated(offset, size)),
                mask,
                result: self.get_transmittable(offset, size),
            },
        )
    }

    /// Finds the next offset, from `start_offset` on, at which data begins that should be
    /// transmitted.
    pub fn find_next_transmittable_offset(&self, start_offset: usize) -> (found: Option<usize>)
        requires
            self.wf(),
        ensures
            found == match self@.next_transmittable(start_offset as int) {
                Some(at) => Some(at as usize),
                None => None::<usize>,
            },
    {
        let length = self.buffer.len();
        let at = self.find_flag(true, start_offset, length);
        if at < length {
            Some(at)
        } else {
            None
        }
    }

    /// Whether all bytes in the given range are in the buffer and should be transmitted.
    pub fn is_range_fully_transmittable(&self, offset: usize, size: usize) -> (all: bool)
        requires
            self.wf(),
            offset + size <= usize::MAX,
        ensures
            all == self@.all_transmittable(offset as int, size as int),
    {
        let range_end = offset + size;
        if range_end > self.buffer.len() {
            return false;
        }
        let at = self.find_flag(false, offset, range_end);
        proof {
            lemma_first_flag(self@.mask, false, offset as int, range_end as int);
        }
        at == range_end
    }

    /// Gets the largest contiguous slice of at most `size` bytes from `offset` on, whatever their
    /// transmission status.
    pub fn get_allocated(&self, offset: usize, size: usize) -> (chunk: &[u8])
        requires
            self.wf(),
        ensures
            chunk@ == self@.ring.chunk(offset as int, size as int),
    {
        self.buffer.get_allocated(offset, size)
    }

    /// Dequeues at most `count` bytes, as far as they are contiguous, and returns them. What the
    /// caller leaves in them is what the freed slots hold.
    pub fn dequeue_many(&mut self, count: usize) -> (front: &mut [u8])
        requires
            old(self).wf(),
        ensures
            front@ == old(self)@.ring.chunk(0, count as int),
            final(front)@.len() == front@.len(),
            final(self).wf(),
            final(self)@ == old(self)@.with_front(final(front)@).dequeued(front@.len() as int),
    {
        proof {
            self.lemma_wf();
            self@.ring.lemma_chunk(0, count as int);
        }
        let front = self.buffer.dequeue_many(count);
        let dequeued: usize = front.len();
        drop_flags(&mut self.mask, dequeued);
        proof {
            old(self)@.ring.lemma_dequeued_len(final(front)@, dequeued as int);
            assert(self.mask@.take(old(self)@.len() - dequeued) =~= old(self)@.mask.skip(
                dequeued as int,
            ));
        }
        front
    }

    /// Dequeues as many bytes as it takes to collect `transmittable_count` bytes that are to be
    /// transmitted, or everything if there are fewer.
    ///
    /// Returns the dequeued bytes that are to be transmitted, and the dequeued bytes that are
    /// not.
    pub fn dequeue_transmittable(&mut self, transmittable_count: usize) -> (out: (
        Vec<u8>,
        Vec<u8>,
    ))
        requires
            old(self).wf(),
        ensures
            final(self).wf(),
            ({
                let span = old(self)@.span(transmittable_count as int);
                let bytes = old(self)@.bytes().take(span);
                let mask = old(self)@.mask.take(span);
                &&& out.0@ == select(bytes, mask, true)
                &&& out.1@ == select(bytes, mask, false)
                &&& final(self)@ == old(self)@.dequeued(span)
            }),
    {
        let mut transmittable_bytes: Vec<u8> = Vec::new();
        let mut untransmittable_bytes: Vec<u8> = Vec::new();
        let length = self.buffer.len();
        let mut at: usize = 0;
        let ghost bytes = self@.bytes();
        let ghost mask = self@.mask;
        proof {
            self.lemma_wf();
        }
        while at < length && transmittable_bytes.len() < transmittable_count
            invariant
                self.wf(),
                self@.wf(),
                self@ == old(self)@,
                bytes == self@.bytes(),
                mask == self@.mask,
                length == self@.len(),
                at <= length,
                transmittable_bytes@.len() <= transmittable_count,
                transmittable_bytes@ == select(
                    bytes.take(at as int),
                    mask.take(at as int),
                    true,
                ),
                untransmittable_bytes@ == select(
                    bytes.take(at as int),
                    mask.take(at as int),
                    false,
                ),
                self@.span(transmittable_count as int) == scan_end(
                    mask,
                    transmittable_count - transmittable_bytes@.len(),
                    at as int,
                ),
            decreases length - at,
        {
            proof {
                self@.ring.lemma_chunk(at as int, 1);
                assert(bytes.take(at + 1).drop_last() =~= bytes.take(at as int));
                assert(mask.take(at + 1).drop_last() =~= mask.take(at as int));
            }
            let byte: u8 = self.buffer.get_allocated(at, 1)[0];
            if self.mask[at] {
                transmittable_bytes.push(byte);
            } else {
                untransmittable_bytes.push(byte);
            }
            at = at + 1;
        }
        self.dequeue_allocated(at);
        (transmittable_bytes, untransmittable_bytes)
    }

    /// Calls `f` with the largest contiguous slice of bytes, and dequeues as many of them as `f`
    /// returns.
    ///
    /// This operates on all data, whatever its transmission status.
    pub fn dequeue_many_with<'b, F, R>(&'b mut self, f: F) -> (out: (usize, R))
    where
        F: FnOnce(&'b mut [u8]) -> (usize, R),

        requires
            old(self).wf(),
            forall|front: &mut [u8]|
                front@ == old(self)@.ring.front() ==> #[trigger] call_requires(f, (front,)),
            forall|front: &mut [u8], out: (usize, R)|
                front@ == old(self)@.ring.front() && #[trigger] call_ensures(f, (front,), out)
                    ==> out.0 <= front@.len(),
        ensures
            final(self).wf(),
            exists|front: &mut [u8]|
                {
                    &&& front@ == old(self)@.ring.front()
                    &&& #[trigger] call_ensures(f, (front,), out)
                    &&& final(front)@.len() == front@.len()
                    &&& final(self)@ == old(self)@.with_front(final(front)@).dequeued(
                        out.0 as int,
                    )
                },
    {
        proof {
            self.lemma_wf();
            self@.ring.lemma_chunk(0, self@.len());
        }
        let ghost before = self@;
        let ring = &mut self.buffer;
        let out = ring.dequeue_many_with(f);
        drop_flags(&mut self.mask, out.0);
        proof {
            let front = choose|front: &mut [u8]|
                {
                    &&& front@ == before.ring.front()
                    &&& #[trigger] call_ensures(f, (front,), out)
                    &&& final(front)@.len() == front@.len()
                    &&& after_borrow(self.buffer)@ == before.ring.with_front(
                        final(front)@,
                    ).dequeued(out.0 as int)
                };
            before.ring.lemma_dequeued_len(final(front)@, out.0 as int);
            assert(self.mask@.take(before.len() - out.0) =~= before.mask.skip(out.0 as int));
        }
        out
    }

    /// Dequeues as many bytes into `data` as there are, and returns how many that was.
    pub fn dequeue_slice(&mut self, data: &mut [u8]) -> (dequeued: usize)
        requires
            old(self).wf(),
        ensures
            final(self).wf(),
            dequeued == min(old(data)@.len() as int, old(self)@.len()),
            final(data)@ == old(self)@.bytes().take(dequeued as int) + old(data)@.skip(
                dequeued as int,
            ),
            final(self)@ == old(self)@.dequeued(dequeued as int),
    {
        let dequeued = self.buffer.dequeue_slice(data);
        drop_flags(&mut self.mask, dequeued);
        assert(self@ =~= old(self)@.dequeued(dequeued as int));
        dequeued
    }

    /// Reads as many bytes into `data` as there are from `offset` on, without dequeuing them, and
    /// returns how many that was.
    pub fn read_allocated(&mut self, offset: usize, data: &mut [u8]) -> (read: usize)
        requires
            old(self).wf(),
        ensures
            final(self).wf(),
            final(self)@ == old(self)@,
            read == old(self)@.ring.piece(offset as int, old(data)@.len() as int).len(),
            final(data)@ == old(self)@.ring.piece(offset as int, old(data)@.len() as int) + old(
                data,
            )@.skip(read as int),
    {
        self.buffer.read_allocated(offset, data)
    }

    /// Dequeues the first `count` bytes.
    pub fn dequeue_allocated(&mut self, count: usize)
        requires
            old(self).wf(),
            count <= old(self)@.len(),
        ensures
            final(self).wf(),
            final(self)@ == old(self)@.dequeued(count as int),
    {
        self.buffer.dequeue_allocated(count);
        drop_flags(&mut self.mask, count);
        assert(self@ =~= old(self)@.dequeued(count as int));
    }

    /// Writes as much of `data` as fits to the free slots, from `offset` slots past the last byte
    /// on, and returns how much that was.
    pub fn write_unallocated(&mut self, offset: usize, data: &[u8]) -> (written: usize)
        requires
            old(self).wf(),
        ensures
            final(self).wf(),
            written == old(self)@.ring.writable(offset as int, data@.len() as int),
            final(self)@ == old(self)@.with_free(offset as int, data@.take(written as int)),
    {
        self.buffer.write_unallocated(offset, data)
    }

    /// Enqueues the first `count` free slots as they are, to be transmitted.
    pub fn enqueue_unallocated(&mut self, count: usize)
        requires
            old(self).wf(),
            count <= old(self)@.ring.free.len(),
        ensures
            final(self).wf(),
            final(self)@ == old(self)@.allocated(count as int),
    {
        proof {
            self.lemma_wf();
        }
        let start = self.buffer.len();
        self.buffer.enqueue_unallocated(count);
        set_flags(&mut self.mask, start, start + count, true);
        assert(self@ =~= old(self)@.allocated(count as int));
    }

    /// Gets the bytes at `offset..end`, as far as they are in the buffer, whatever their
    /// transmission status.
    ///
    /// A range that wraps around is collected from its two contiguous segments.
    pub fn get_unmasked(&self, offset: usize, end: usize) -> (bytes: Vec<u8>)
        requires
            self.wf(),
            offset <= end,
        ensures
            bytes@ == self@.ring.piece(offset as int, end - offset),
    {
        let size = end - offset;
        if size == 0 {
            return Vec::new();
        }
        proof {
            self.lemma_wf();
            self@.ring.lemma_chunk(offset as int, size as int);
            self@.ring.lemma_chunks(offset as int, size as int);
            self@.ring.lemma_chunk(
                offset + self@.ring.chunk_len(offset as int, size as int),
                size - self@.ring.chunk_len(offset as int, size as int),
            );
        }
        let first_segment = self.buffer.get_allocated(offset, size);
        let first_len: usize = first_segment.len();
        let mut result = slice_to_vec(first_segment);
        if first_len == size {
            assert(result@ =~= self@.ring.piece(offset as int, size as int));
            return result;
        }
        let second_segment = self.buffer.get_allocated(offset + first_len, size - first_len);
        result.extend_from_slice(second_segment);
        assert(result@ =~= self@.ring.piece(offset as int, size as int));
        result
    }

    /// Marks a range of bytes as already sent.
    ///
    /// This is used when data in the buffer has been sent by somebody else (an FPGA, say). Where
    /// the range goes past the last byte, it is cut off.
    pub fn mark_as_already_sent(&mut self, offset: usize, size: usize)
        requires
            old(self).wf(),
            offset + size <= usize::MAX,
        ensures
            final(self).wf(),
            final(self)@ == old(self)@.flagged(offset as int, size as int, false),
    {
        self.flag_range(offset, size, false);
    }

    /// Marks a range of bytes as to be transmitted again.
    ///
    /// This is used during retransmission, so that data that was sent before can be sent again.
    /// Where the range goes past the last byte, it is cut off.
    pub fn reset_mask_range(&mut self, offset: usize, size: usize)
        requires
            old(self).wf(),
            offset + size <= usize::MAX,
        ensures
            final(self).wf(),
            final(self)@ == old(self)@.flagged(offset as int, size as int, true),
    {
        self.flag_range(offset, size, true);
    }

    /// Sets the flags of the bytes among `offset..offset + size` to `flag`.
    fn flag_range(&mut self, offset: usize, size: usize, flag: bool)
        requires
            old(self).wf(),
            offset + size <= usize::MAX,
        ensures
            final(self).wf(),
            final(self)@ == old(self)@.flagged(offset as int, size as int, flag),
    {
        proof {
            self.lemma_wf();
        }
        let length = self.buffer.len();
        let end: usize = if offset + size <= length {
            offset + size
        } else {
            length
        };
        set_flags(&mut self.mask, offset, end, flag);
        assert(self@ =~= old(self)@.flagged(offset as int, size as int, flag));
    }

    /// Returns how many bytes are to be transmitted, and how many there are.
    pub fn mask_debug_info(&self) -> (info: (usize, usize))
        requires
            self.wf(),
        ensures
            info.0 == self@.transmit_len(),
            info.1 == self@.len(),
    {
        (self.len_to_transmit(), self.len())
    }

    /// Returns a text that shows how many bytes are to be transmitted and how many there are,
    /// followed by the bytes themselves, those that are not to be transmitted within brackets.
    pub fn debug_text(&self) -> (text: String)
        requires
            self.wf(),
        ensures
            text@ == self@.debug_text(),
    {
        let length = self.buffer.len();
        if length == 0 {
            return String::from_str("MaskedSocketBuffer { empty }");
        }
        proof {
            self.lemma_wf();
        }
        let mut text = String::from_str("MaskedSocketBuffer { ");
        push_decimal(&mut text, self.len_to_transmit());
        text.append("/");
        push_decimal(&mut text, length);
        text.append(" transmittable: ");
        let ghost header = text@;
        let ghost bytes = self@.bytes();
        let ghost mask = self@.mask;
        let mut at: usize = 0;
        assert(header + bytes_text(bytes.take(0), mask.take(0)) =~= header);
        while at < length
            invariant
                self.wf(),
                self@.wf(),
                bytes == self@.bytes(),
                mask == self@.mask,
                length == self@.len(),
                at <= length,
                text@ == header + bytes_text(bytes.take(at as int), mask.take(at as int)),
            decreases length - at,
        {
            proof {
                self@.ring.lemma_chunk(at as int, 1);
                assert(bytes.take(at + 1).drop_last() =~= bytes.take(at as int));
                assert(mask.take(at + 1).drop_last() =~= mask.take(at as int));
            }
            if at > 0 {
                text.push(' ');
            }
            let byte: u8 = self.buffer.get_allocated(at, 1)[0];
            push_byte(&mut text, byte, self.mask[at]);
            at = at + 1;
            assert(text@ =~= header + bytes_text(bytes.take(at as int), mask.take(at as int)));
        }
        assert(bytes.take(length as int) =~= bytes);
        assert(mask.take(length as int) =~= mask);
        text.append(" }");
        text
    }
}

impl<'a> vstd::std_specs::convert::FromSpecImpl<RingBuffer<'a, u8>> for MaskedSocketBuffer<'a> {
    open spec fn obeys_from_spec() -> bool {
        false
    }

    open spec fn from_spec(buffer: RingBuffer<'a, u8>) -> Self {
        arbitrary()
    }
}

impl<'a> From<RingBuffer<'a, u8>> for MaskedSocketBuffer<'a> {
    /// Does what [`MaskedSocketBuffer::new`] does.
    fn from(buffer: RingBuffer<'a, u8>) -> (masked: Self)
        ensures
            buffer.wf() ==> masked.wf(),
            buffer.wf() ==> masked@ == MaskedState::unmasked(buffer@),
    {
        let capacity = buffer.capacity();
        let masked = MaskedSocketBuffer { buffer, mask: vec![true; capacity] };
        proof {
            if buffer.wf() {
                assert(masked@ =~= MaskedState::unmasked(buffer@));
            }
        }
        masked
    }
}

} // verus!
