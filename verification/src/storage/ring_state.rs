//! The mathematical model of a ring buffer.

use vstd::prelude::*;

verus! {

/// The smaller of two integers.
pub open spec fn min(a: int, b: int) -> int {
    if a <= b {
        a
    } else {
        b
    }
}

/// The storage index of logical position `i` in a ring of `capacity` slots whose first slot is at
/// storage index `head`. Meant for `i` up to the capacity.
pub open spec fn wrap(head: int, i: int, capacity: int) -> int {
    if head + i < capacity {
        head + i
    } else {
        head + i - capacity
    }
}

/// `s` with its first `n` elements moved to the end.
pub open spec fn rotate<T>(s: Seq<T>, n: int) -> Seq<T> {
    s.skip(n) + s.take(n)
}

/// What a ring buffer holds.
///
/// Logical position 0 is the oldest allocated element. The allocated elements are followed by the
/// free slots, which keep whatever was last written to them. The storage is laid out from storage
/// index 0 up; logical position 0 lies at storage index `head`, and positions wrap around at the
/// end of the storage.
#[verifier::ext_equal]
pub struct RingState<T> {
    /// The allocated elements, oldest first.
    pub contents: Seq<T>,
    /// The free slots, in the order in which they would be filled.
    pub free: Seq<T>,
    /// The storage index of logical position 0.
    pub head: int,
}

impl<T> RingState<T> {
    /// The state of a ring buffer with storage `storage`, whose `len` allocated elements start at
    /// storage index `head`.
    pub open spec fn of_storage(storage: Seq<T>, head: int, len: int) -> Self {
        RingState {
            contents: rotate(storage, head).take(len),
            free: rotate(storage, head).skip(len),
            head,
        }
    }

    /// The number of slots.
    pub open spec fn capacity(self) -> int {
        (self.contents.len() + self.free.len()) as int
    }

    /// The head lies in the storage, if there is any.
    pub open spec fn wf(self) -> bool {
        0 <= self.head && (self.head < self.capacity() || self.head == 0)
    }

    /// The storage, from storage index 0 up.
    pub open spec fn storage(self) -> Seq<T> {
        rotate(self.contents + self.free, self.capacity() - self.head)
    }

    /// How many slots lie between logical position `i` and the end of the storage.
    pub open spec fn until_end(self, i: int) -> int {
        self.capacity() - wrap(self.head, i, self.capacity())
    }

    /// The state with nothing allocated and the head back at the start of the storage.
    pub open spec fn cleared(self) -> Self {
        RingState { contents: Seq::empty(), free: self.storage(), head: 0 }
    }

    /// The state in which an enqueue starts: an empty ring is rewound to the start of the
    /// storage, so that the free space is as contiguous as it can be.
    pub open spec fn rewound(self) -> Self {
        if self.contents.len() == 0 {
            self.cleared()
        } else {
            self
        }
    }

    /// How many free slots an enqueue finds in one piece.
    pub open spec fn contiguous_window(self) -> int {
        min(self.free.len() as int, self.until_end(self.contents.len() as int))
    }

    /// The length of the longest piece of at most `size` allocated elements from logical position
    /// `offset` on that does not wrap around.
    pub open spec fn chunk_len(self, offset: int, size: int) -> int {
        if offset > self.contents.len() {
            0
        } else {
            min(min(size, self.contents.len() - offset), self.until_end(offset))
        }
    }

    /// The longest piece of at most `size` allocated elements from logical position `offset` on
    /// that does not wrap around.
    pub open spec fn chunk(self, offset: int, size: int) -> Seq<T> {
        if offset > self.contents.len() {
            Seq::empty()
        } else {
            self.contents.subrange(offset, offset + self.chunk_len(offset, size))
        }
    }

    /// The length of the longest piece of at most `size` free slots, from `offset` slots past the
    /// last allocated element on, that does not wrap around.
    pub open spec fn free_chunk_len(self, offset: int, size: int) -> int {
        if offset > self.free.len() {
            0
        } else {
            min(
                min(size, self.free.len() - offset),
                self.until_end(self.contents.len() + offset),
            )
        }
    }

    /// The longest piece of at most `size` free slots, from `offset` slots past the last allocated
    /// element on, that does not wrap around.
    pub open spec fn free_chunk(self, offset: int, size: int) -> Seq<T> {
        if offset > self.free.len() {
            Seq::empty()
        } else {
            self.free.subrange(offset, offset + self.free_chunk_len(offset, size))
        }
    }

    /// The longest piece of the contents, from the oldest element on, that does not wrap around.
    pub open spec fn front(self) -> Seq<T> {
        self.chunk(0, self.contents.len() as int)
    }

    /// The free slots that an enqueue finds in one piece.
    pub open spec fn enqueue_slots(self) -> Seq<T> {
        let start = self.rewound();
        start.free.take(start.contiguous_window())
    }

    /// The state after the free slots that an enqueue finds in one piece were filled with
    /// `written` and the first `n` of them were allocated.
    pub open spec fn enqueued_with(self, written: Seq<T>, n: int) -> Self {
        self.rewound().with_free(0, written).allocated(n)
    }

    /// At most `size` allocated elements from logical position `offset` on.
    pub open spec fn piece(self, offset: int, size: int) -> Seq<T> {
        if offset > self.contents.len() {
            Seq::empty()
        } else {
            self.contents.subrange(offset, offset + min(size, self.contents.len() - offset))
        }
    }

    /// How many of `size` elements can be written to the free slots from `offset` on.
    pub open spec fn writable(self, offset: int, size: int) -> int {
        if offset > self.free.len() {
            0
        } else {
            min(size, self.free.len() - offset)
        }
    }

    /// The state after `data` was written to the free slots from `offset` on, none being
    /// allocated.
    pub open spec fn with_free(self, offset: int, data: Seq<T>) -> Self {
        RingState {
            free: if offset > self.free.len() {
                self.free
            } else {
                self.free.take(offset) + data + self.free.skip(offset + data.len())
            },
            ..self
        }
    }

    /// The state after the first elements were overwritten by `data`.
    pub open spec fn with_front(self, data: Seq<T>) -> Self {
        RingState { contents: data + self.contents.skip(data.len() as int), ..self }
    }

    /// The state after the first `n` free slots were allocated as they are.
    pub open spec fn allocated(self, n: int) -> Self {
        RingState {
            contents: self.contents + self.free.take(n),
            free: self.free.skip(n),
            ..self
        }
    }

    /// The state after `data` was enqueued.
    pub open spec fn enqueued(self, data: Seq<T>) -> Self {
        self.rewound().with_free(0, data).allocated(data.len() as int)
    }

    /// The state after the first `n` elements were dequeued. Their values stay behind in the last
    /// free slots.
    pub open spec fn dequeued(self, n: int) -> Self {
        RingState {
            contents: self.contents.skip(n),
            free: self.free + self.contents.take(n),
            head: wrap(self.head, n, self.capacity()),
        }
    }
}

impl<T> RingState<T> {
    /// Clearing keeps the capacity.
    pub proof fn lemma_cleared_capacity(self)
        requires
            self.wf(),
        ensures
            self.cleared().wf(),
            self.cleared().capacity() == self.capacity(),
            self.rewound().wf(),
            self.rewound().contents == self.contents,
            self.rewound().capacity() == self.capacity(),
            self.rewound().free.len() == self.free.len(),
    {
        assert(self.contents.len() == 0 ==> self.contents =~= Seq::empty());
    }

    /// Enqueuing appends to the contents and uses up free slots.
    pub proof fn lemma_enqueued_len(self, written: Seq<T>, n: int)
        requires
            self.wf(),
            written.len() <= self.free.len(),
            0 <= n <= written.len(),
        ensures
            self.enqueued_with(written, n).wf(),
            self.enqueued_with(written, n).contents == self.contents + written.take(n),
            self.enqueued_with(written, n).free.len() == self.free.len() - n,
            self.enqueued_with(written, n).capacity() == self.capacity(),
    {
        self.lemma_cleared_capacity();
        let start = self.rewound();
        assert(start.with_free(0, written).free.take(n) =~= written.take(n));
    }

    /// Two pieces are enough to reach every free slot, whether or not they wrap around.
    pub proof fn lemma_free_chunks(self, offset: int, size: int)
        requires
            self.wf(),
            0 <= offset,
            0 <= size,
        ensures
            ({
                let first = self.free_chunk_len(offset, size);
                &&& 0 <= first <= size
                &&& first + self.free_chunk_len(offset + first, size - first) == self.writable(
                    offset,
                    size,
                )
            }),
    {
    }

    /// A contiguous piece is as long as [`RingState::chunk_len`] says.
    pub proof fn lemma_chunk(self, offset: int, size: int)
        requires
            self.wf(),
            0 <= offset,
            0 <= size,
        ensures
            0 <= self.chunk_len(offset, size) <= size,
            offset <= self.contents.len() ==> offset + self.chunk_len(offset, size)
                <= self.contents.len(),
            self.chunk(offset, size).len() == self.chunk_len(offset, size),
    {
    }

    /// Two contiguous pieces are enough to reach every element, whether or not they wrap around.
    pub proof fn lemma_chunks(self, offset: int, size: int)
        requires
            self.wf(),
            0 <= offset,
            0 <= size,
        ensures
            ({
                let first = self.chunk_len(offset, size);
                self.chunk(offset, size) + self.chunk(offset + first, size - first) == self.piece(
                    offset,
                    size,
                )
            }),
    {
        let first = self.chunk_len(offset, size);
        self.lemma_chunk(offset, size);
        self.lemma_chunk(offset + first, size - first);
        assert(self.chunk(offset, size) + self.chunk(offset + first, size - first) =~= self.piece(
            offset,
            size,
        ));
    }

    /// Dequeuing from the front keeps the capacity, whatever is left behind in the freed slots.
    pub proof fn lemma_dequeued_len(self, written: Seq<T>, n: int)
        requires
            self.wf(),
            written.len() <= self.contents.len(),
            0 <= n <= written.len(),
        ensures
            self.with_front(written).dequeued(n).wf(),
            self.with_front(written).dequeued(n).contents.len() == self.contents.len() - n,
            self.with_front(written).dequeued(n).capacity() == self.capacity(),
    {
    }

    /// Two writes to free slots, one behind the other, are one write.
    pub proof fn lemma_with_free_twice(self, offset: int, a: Seq<T>, b: Seq<T>)
        requires
            0 <= offset,
            offset <= self.free.len() ==> offset + a.len() + b.len() <= self.free.len(),
            offset > self.free.len() ==> a.len() == 0 && b.len() == 0,
        ensures
            self.with_free(offset, a).with_free(offset + a.len(), b) == self.with_free(
                offset,
                a + b,
            ),
    {
        assert(self.with_free(offset, a).with_free(offset + a.len(), b) =~= self.with_free(
            offset,
            a + b,
        ));
    }
}

/// Writing `data` over storage indices `wrap(head, at)..` writes it over logical positions
/// `at..`, as long as it does not wrap around.
pub proof fn lemma_splice<T>(storage: Seq<T>, head: int, at: int, data: Seq<T>)
    requires
        0 <= head,
        head < storage.len() || head == 0,
        0 <= at,
        at + data.len() <= storage.len(),
        wrap(head, at, storage.len() as int) + data.len() <= storage.len(),
    ensures
        ({
            let from = wrap(head, at, storage.len() as int);
            let logical = rotate(storage, head);
            rotate(storage.take(from) + data + storage.skip(from + data.len()), head)
                == logical.take(at) + data + logical.skip(at + data.len())
        }),
{
    let from = wrap(head, at, storage.len() as int);
    let logical = rotate(storage, head);
    let after = storage.take(from) + data + storage.skip(from + data.len());
    assert(rotate(after, head) =~= logical.take(at) + data + logical.skip(at + data.len()));
}

/// Rotating a rotation goes on where the first one stopped.
pub proof fn lemma_rotate_again<T>(storage: Seq<T>, head: int, n: int)
    requires
        0 <= head,
        head < storage.len() || head == 0,
        0 <= n <= storage.len(),
    ensures
        rotate(rotate(storage, head), n) == rotate(
            storage,
            wrap(head, n, storage.len() as int),
        ),
{
    assert(rotate(rotate(storage, head), n) =~= rotate(
        storage,
        wrap(head, n, storage.len() as int),
    ));
}

/// Overwriting the front of the contents and then dequeuing some of it is seen in the storage as
/// the write, with the head moved on.
pub proof fn lemma_front_dequeued<T>(
    storage: Seq<T>,
    head: int,
    len: int,
    data: Seq<T>,
    n: int,
)
    requires
        0 <= head,
        head < storage.len() || head == 0,
        data.len() <= len <= storage.len(),
        head + data.len() <= storage.len(),
        0 <= n <= data.len(),
    ensures
        RingState::of_storage(
            storage.take(head) + data + storage.skip(head + data.len()),
            wrap(head, n, storage.len() as int),
            len - n,
        ) == RingState::of_storage(storage, head, len).with_front(data).dequeued(n),
{
    let after = storage.take(head) + data + storage.skip(head + data.len());
    lemma_splice(storage, head, 0, data);
    lemma_rotate_again(after, head, n);
    assert(RingState::of_storage(after, wrap(head, n, storage.len() as int), len - n)
        =~= RingState::of_storage(storage, head, len).with_front(data).dequeued(n));
}

/// Writing to the free slots and then allocating the first `n` of them is seen in the storage as
/// the write alone.
pub proof fn lemma_free_written<T>(
    storage: Seq<T>,
    head: int,
    len: int,
    offset: int,
    data: Seq<T>,
    n: int,
)
    requires
        0 <= head,
        head < storage.len() || head == 0,
        0 <= len,
        0 <= offset,
        len + offset + data.len() <= storage.len(),
        wrap(head, len + offset, storage.len() as int) + data.len() <= storage.len(),
        0 <= n <= storage.len() - len,
    ensures
        ({
            let from = wrap(head, len + offset, storage.len() as int);
            let after = storage.take(from) + data + storage.skip(from + data.len());
            RingState::of_storage(after, head, len + n) == RingState::of_storage(
                storage,
                head,
                len,
            ).with_free(offset, data).allocated(n)
        }),
{
    let from = wrap(head, len + offset, storage.len() as int);
    let after = storage.take(from) + data + storage.skip(from + data.len());
    lemma_splice(storage, head, len + offset, data);
    let before = RingState::of_storage(storage, head, len);
    let written = before.with_free(offset, data);
    assert(before.contents + written.free =~= rotate(after, head));
    assert(RingState::of_storage(after, head, len + n) =~= written.allocated(n));
}

} // verus!
