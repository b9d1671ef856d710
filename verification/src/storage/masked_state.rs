//! The mathematical model of a masked socket buffer.

use vstd::prelude::*;

use super::debug_text::{bytes_text, decimal};
use super::ring_state::{min, RingState};

verus! {

/// `n` equal flags.
pub open spec fn flags(n: int, flag: bool) -> Seq<bool> {
    Seq::new(n as nat, |i: int| flag)
}

/// How many flags of a mask are set.
pub open spec fn count_set(mask: Seq<bool>) -> nat
    decreases mask.len(),
{
    if mask.len() == 0 {
        0
    } else {
        count_set(mask.drop_last()) + if mask.last() {
            1nat
        } else {
            0nat
        }
    }
}

/// The first position in `from..to` whose flag is `flag`, or `to` if there is none.
pub open spec fn first_flag(mask: Seq<bool>, flag: bool, from: int, to: int) -> int
    decreases to - from,
{
    if from >= to {
        to
    } else if mask[from] == flag {
        from
    } else {
        first_flag(mask, flag, from + 1, to)
    }
}

/// The bytes whose flag is `flag`, in order.
pub open spec fn select(bytes: Seq<u8>, mask: Seq<bool>, flag: bool) -> Seq<u8>
    decreases bytes.len(),
{
    if bytes.len() == 0 {
        Seq::empty()
    } else {
        let head = select(bytes.drop_last(), mask.drop_last(), flag);
        if mask.last() == flag {
            head.push(bytes.last())
        } else {
            head
        }
    }
}

/// Where a scan of the mask from position `at` on stops: as soon as it has passed `n` set flags,
/// or else at the end.
pub open spec fn scan_end(mask: Seq<bool>, n: int, at: int) -> int
    decreases mask.len() - at,
{
    if at >= mask.len() || n <= 0 {
        at
    } else {
        scan_end(
            mask,
            if mask[at] {
                n - 1
            } else {
                n
            },
            at + 1,
        )
    }
}

/// What a masked socket buffer holds: a ring of bytes, and for each allocated byte a flag that
/// says whether the byte is still to be transmitted.
#[verifier::ext_equal]
pub struct MaskedState {
    /// The bytes.
    pub ring: RingState<u8>,
    /// The flags of the allocated bytes: set means transmit, clear means that the byte was
    /// already sent by somebody else.
    pub mask: Seq<bool>,
}

impl MaskedState {
    /// Each allocated byte has a flag.
    pub open spec fn wf(self) -> bool {
        &&& self.ring.wf()
        &&& self.mask.len() == self.ring.contents.len()
    }

    /// The allocated bytes, oldest first.
    pub open spec fn bytes(self) -> Seq<u8> {
        self.ring.contents
    }

    /// The number of allocated bytes.
    pub open spec fn len(self) -> int {
        self.ring.contents.len() as int
    }

    /// The state of a buffer over `ring` with everything in it still to be transmitted.
    pub open spec fn unmasked(ring: RingState<u8>) -> Self {
        MaskedState { ring, mask: flags(ring.contents.len() as int, true) }
    }

    /// The state after everything was dropped.
    pub open spec fn cleared(self) -> Self {
        MaskedState { ring: self.ring.cleared(), mask: Seq::empty() }
    }

    /// The state after `data` was enqueued with flag `flag`.
    pub open spec fn enqueued(self, data: Seq<u8>, flag: bool) -> Self {
        MaskedState {
            ring: self.ring.enqueued(data),
            mask: self.mask + flags(data.len() as int, flag),
        }
    }

    /// The state after the free slots that an enqueue finds in one piece were filled with
    /// `written` and the first `n` of them were allocated, to be transmitted.
    pub open spec fn enqueued_with(self, written: Seq<u8>, n: int) -> Self {
        MaskedState {
            ring: self.ring.enqueued_with(written, n),
            mask: self.mask + flags(n, true),
        }
    }

    /// The state after the first `n` free slots were allocated as they are, to be transmitted.
    pub open spec fn allocated(self, n: int) -> Self {
        MaskedState { ring: self.ring.allocated(n), mask: self.mask + flags(n, true) }
    }

    /// The state after `data` was written to the free slots from `offset` on.
    pub open spec fn with_free(self, offset: int, data: Seq<u8>) -> Self {
        MaskedState { ring: self.ring.with_free(offset, data), ..self }
    }

    /// The state after the first bytes were overwritten by `data`.
    pub open spec fn with_front(self, data: Seq<u8>) -> Self {
        MaskedState { ring: self.ring.with_front(data), ..self }
    }

    /// The state after the first `n` bytes were dequeued, with their flags.
    pub open spec fn dequeued(self, n: int) -> Self {
        MaskedState { ring: self.ring.dequeued(n), mask: self.mask.skip(n) }
    }

    /// The state after the flags of the allocated bytes among `offset..offset + size` were set to
    /// `flag`.
    pub open spec fn flagged(self, offset: int, size: int, flag: bool) -> Self {
        MaskedState {
            mask: Seq::new(
                self.mask.len(),
                |i: int|
                    if offset <= i < offset + size {
                        flag
                    } else {
                        self.mask[i]
                    },
            ),
            ..self
        }
    }

    /// How many bytes are to be transmitted.
    pub open spec fn transmit_len(self) -> nat {
        count_set(self.mask)
    }

    /// The first position from `start` on whose byte is to be transmitted.
    pub open spec fn next_transmittable(self, start: int) -> Option<int> {
        let at = first_flag(self.mask, true, start, self.len());
        if at < self.len() {
            Some(at)
        } else {
            None
        }
    }

    /// Whether `offset..offset + size` are allocated bytes that are all to be transmitted.
    pub open spec fn all_transmittable(self, offset: int, size: int) -> bool {
        &&& offset + size <= self.len()
        &&& forall|i: int| offset <= i < offset + size ==> self.mask[i]
    }

    /// The end of the allocated part of `offset..offset + size`.
    pub open spec fn range_end(self, offset: int, size: int) -> int {
        min(offset + size, self.len())
    }

    /// Where the first run of bytes to be transmitted within `offset..offset + size` starts.
    pub open spec fn run_start(self, offset: int, size: int) -> int {
        first_flag(self.mask, true, offset, self.range_end(offset, size))
    }

    /// Where the first run of bytes to be transmitted within `offset..offset + size` ends.
    pub open spec fn run_end(self, offset: int, size: int) -> int {
        first_flag(
            self.mask,
            false,
            self.run_start(offset, size),
            self.range_end(offset, size),
        )
    }

    /// The first run of bytes to be transmitted within `offset..offset + size`.
    pub open spec fn transmittable(self, offset: int, size: int) -> Seq<u8> {
        if offset >= self.len() {
            Seq::empty()
        } else {
            self.bytes().subrange(self.run_start(offset, size), self.run_end(offset, size))
        }
    }

    /// The flags of all slots: those of the allocated bytes, and set ones for the free slots.
    pub open spec fn slot_flags(self) -> Seq<bool> {
        self.mask + flags(self.ring.free.len() as int, true)
    }

    /// The flags of the slots among `offset..offset + size`.
    pub open spec fn flags_in(self, offset: int, size: int) -> Seq<bool> {
        if offset > self.ring.capacity() {
            Seq::empty()
        } else {
            self.slot_flags().subrange(offset, min(offset + size, self.ring.capacity()))
        }
    }

    /// The text in which the buffer is shown.
    pub open spec fn debug_text(self) -> Seq<char> {
        if self.len() == 0 {
            "MaskedSocketBuffer { empty }"@
        } else {
            "MaskedSocketBuffer { "@ + decimal(self.transmit_len()) + "/"@ + decimal(
                self.len() as nat,
            ) + " transmittable: "@ + bytes_text(self.bytes(), self.mask) + " }"@
        }
    }

    /// How many bytes have to be dequeued to get hold of `n` bytes that are to be transmitted, or
    /// of all of them if there are fewer.
    pub open spec fn span(self, n: int) -> int {
        scan_end(self.mask, n, 0)
    }
}

/// What [`first_flag`] finds.
pub proof fn lemma_first_flag(mask: Seq<bool>, flag: bool, from: int, to: int)
    requires
        from <= to,
    ensures
        from <= first_flag(mask, flag, from, to) <= to,
        forall|i: int| from <= i < first_flag(mask, flag, from, to) ==> mask[i] != flag,
        first_flag(mask, flag, from, to) < to ==> mask[first_flag(mask, flag, from, to)] == flag,
    decreases to - from,
{
    if from < to && mask[from] != flag {
        lemma_first_flag(mask, flag, from + 1, to);
    }
}

} // verus!
