//! A ring buffer.

use vstd::prelude::*;
use vstd::slice::slice_subrange;

use super::managed::ManagedSlice;
use super::ring_state::{lemma_free_written, lemma_front_dequeued, lemma_rotate_again, min, RingState};
use super::slice_ops::{copy_over, range_mut};

verus! {

/// A ring buffer.
///
/// Elements are enqueued at the end and dequeued from the start. Besides, data can be written to
/// the free slots out of order and allocated afterwards, and read from the allocated ones without
/// being dequeued.
pub struct RingBuffer<'a, T> {
    storage: ManagedSlice<'a, T>,
    read_at: usize,
    length: usize,
}

impl<'a, T> View for RingBuffer<'a, T> {
    type V = RingState<T>;

    closed spec fn view(&self) -> RingState<T> {
        RingState::of_storage(self.storage@, self.read_at as int, self.length as int)
    }
}

impl<'a, T> RingBuffer<'a, T> {
    /// The allocated elements fit in the storage, and the oldest one lies in it.
    pub closed spec fn wf(&self) -> bool {
        &&& self.length <= self.storage@.len()
        &&& self.read_at < self.storage@.len() || self.read_at == 0
        &&& self.storage@.len() <= usize::MAX
    }

    /// What every ring buffer's state satisfies.
    pub proof fn lemma_wf(&self)
        requires
            self.wf(),
        ensures
            self@.wf(),
            self@.capacity() <= usize::MAX,
            0 <= self@.head,
            self@.head < self@.contents.len() + self@.free.len() || self@.head == 0,
            self@.contents.len() + self@.free.len() <= usize::MAX,
    {
    }

    /// Creates an empty ring buffer that keeps its elements in `storage`.
    pub fn new(storage: Vec<T>) -> (ring: Self)
        ensures
            ring.wf(),
            ring@ == (RingState { contents: Seq::empty(), free: storage@, head: 0 }),
    {
        let ring = RingBuffer { storage: ManagedSlice::Owned(storage), read_at: 0, length: 0 };
        assert(storage.len() == storage@.len());
        assert(ring@ =~= (RingState { contents: Seq::empty(), free: storage@, head: 0 }));
        ring
    }

    /// Creates an empty ring buffer that keeps its elements in a slice lent to it.
    pub fn from_slice(storage: &'a mut [T]) -> (ring: Self)
        ensures
            ring.wf(),
            ring@ == (RingState { contents: Seq::empty(), free: old(storage)@, head: 0 }),
    {
        let ghost slots = storage@;
        let size: usize = storage.len();
        let ring = RingBuffer { storage: ManagedSlice::Borrowed(storage), read_at: 0, length: 0 };
        assert(ring@ =~= (RingState { contents: Seq::empty(), free: slots, head: 0 }));
        ring
    }

    /// Drops every element.
    pub fn clear(&mut self)
        requires
            old(self).wf(),
        ensures
            final(self).wf(),
            final(self)@ == old(self)@.cleared(),
    {
        self.read_at = 0;
        self.length = 0;
        assert(self@ =~= old(self)@.cleared());
    }

    /// The number of slots.
    pub fn capacity(&self) -> (slots: usize)
        ensures
            self.wf() ==> slots == self@.capacity(),
    {
        self.storage.as_slice().len()
    }

    /// The number of allocated elements.
    pub fn len(&self) -> (length: usize)
        requires
            self.wf(),
        ensures
            length == self@.contents.len(),
    {
        self.length
    }

    /// The number of free slots.
    pub fn window(&self) -> (slots: usize)
        requires
            self.wf(),
        ensures
            slots == self@.free.len(),
    {
        self.capacity() - self.len()
    }

    /// The largest number of elements that can be enqueued without wrapping around.
    pub fn contiguous_window(&self) -> (slots: usize)
        requires
            self.wf(),
        ensures
            slots == self@.contiguous_window(),
    {
        let window = self.window();
        let until_end = self.until_end(self.length);
        if window <= until_end {
            window
        } else {
            until_end
        }
    }

    /// Whether nothing is allocated.
    pub fn is_empty(&self) -> (empty: bool)
        requires
            self.wf(),
        ensures
            empty == (self@.contents.len() == 0),
    {
        self.len() == 0
    }

    /// Whether nothing is free.
    pub fn is_full(&self) -> (full: bool)
        requires
            self.wf(),
        ensures
            full == (self@.free.len() == 0),
    {
        self.window() == 0
    }

    /// The storage index of logical position `i`.
    fn index_of(&self, i: usize) -> (index: usize)
        requires
            self.wf(),
            i <= self@.capacity(),
        ensures
            index == super::ring_state::wrap(self@.head, i as int, self@.capacity()),
    {
        let room: usize = self.capacity() - self.read_at;
        if i < room {
            self.read_at + i
        } else {
            i - room
        }
    }

    /// The number of slots between logical position `i` and the end of the storage.
    fn until_end(&self, i: usize) -> (slots: usize)
        requires
            self.wf(),
            i <= self@.capacity(),
        ensures
            slots == self@.until_end(i as int),
    {
        self.capacity() - self.index_of(i)
    }
}

impl<'a, T> RingBuffer<'a, T> {
    /// Calls `f` with the largest contiguous slice of free slots, and enqueues as many of them as
    /// `f` returns.
    pub fn enqueue_many_with<'b, R, F>(&'b mut self, f: F) -> (out: (usize, R))
    where
        F: FnOnce(&'b mut [T]) -> (usize, R),

        requires
            old(self).wf(),
            forall|slots: &mut [T]|
                slots@ == old(self)@.enqueue_slots() ==> #[trigger] call_requires(f, (slots,)),
            forall|slots: &mut [T], out: (usize, R)|
                slots@ == old(self)@.enqueue_slots() && #[trigger] call_ensures(f, (slots,), out)
                    ==> out.0 <= slots@.len(),
        ensures
            final(self).wf(),
            exists|slots: &mut [T]|
                {
                    &&& slots@ == old(self)@.enqueue_slots()
                    &&& #[trigger] call_ensures(f, (slots,), out)
                    &&& final(slots)@.len() == slots@.len()
                    &&& final(self)@ == old(self)@.enqueued_with(final(slots)@, out.0 as int)
                },
    {
        if self.length == 0 {
            self.read_at = 0;
        }
        assert(self@ =~= old(self)@.rewound());
        let ghost start = self@;
        let ghost storage = self.storage@;
        let write_at = self.index_of(self.length);
        let max_size = self.contiguous_window();
        let slots = range_mut(self.storage.as_mut_slice(), write_at, write_at + max_size);
        assert(slots@ =~= old(self)@.enqueue_slots());
        let ghost written = final(slots)@;
        let out = f(slots);
        self.length = self.length + out.0;
        proof {
            lemma_free_written(
                storage,
                start.head,
                start.contents.len() as int,
                0,
                written,
                out.0 as int,
            );
        }
        out
    }

    /// Calls `f` with the largest contiguous slice of allocated elements, and dequeues as many of
    /// them as `f` returns.
    pub fn dequeue_many_with<'b, R, F>(&'b mut self, f: F) -> (out: (usize, R))
    where
        F: FnOnce(&'b mut [T]) -> (usize, R),

        requires
            old(self).wf(),
            forall|front: &mut [T]|
                front@ == old(self)@.front() ==> #[trigger] call_requires(f, (front,)),
            forall|front: &mut [T], out: (usize, R)|
                front@ == old(self)@.front() && #[trigger] call_ensures(f, (front,), out)
                    ==> out.0 <= front@.len(),
        ensures
            final(self).wf(),
            exists|front: &mut [T]|
                {
                    &&& front@ == old(self)@.front()
                    &&& #[trigger] call_ensures(f, (front,), out)
                    &&& final(front)@.len() == front@.len()
                    &&& final(self)@ == old(self)@.with_front(final(front)@).dequeued(
                        out.0 as int,
                    )
                },
    {
        let ghost storage = self.storage@;
        let until_end = self.until_end(0);
        let max_size = if self.length <= until_end {
            self.length
        } else {
            until_end
        };
        let read_at = self.read_at;
        let front = range_mut(self.storage.as_mut_slice(), read_at, read_at + max_size);
        assert(front@ =~= old(self)@.front());
        let ghost written = final(front)@;
        let out = f(front);
        self.read_at = if out.0 < until_end {
            read_at + out.0
        } else {
            out.0 - until_end
        };
        self.length = self.length - out.0;
        proof {
            lemma_front_dequeued(
                storage,
                read_at as int,
                old(self)@.contents.len() as int,
                written,
                out.0 as int,
            );
        }
        out
    }

    /// Allocates the first `count` free slots as they are.
    pub fn enqueue_unallocated(&mut self, count: usize)
        requires
            old(self).wf(),
            count <= old(self)@.free.len(),
        ensures
            final(self).wf(),
            final(self)@ == old(self)@.allocated(count as int),
    {
        self.length = self.length + count;
        assert(self@ =~= old(self)@.allocated(count as int));
    }

    /// Dequeues the first `count` elements.
    pub fn dequeue_allocated(&mut self, count: usize)
        requires
            old(self).wf(),
            count <= old(self)@.contents.len(),
        ensures
            final(self).wf(),
            final(self)@ == old(self)@.dequeued(count as int),
    {
        let read_at = self.index_of(count);
        proof {
            lemma_rotate_again(self.storage@, self.read_at as int, count as int);
        }
        self.read_at = read_at;
        self.length = self.length - count;
        assert(self@ =~= old(self)@.dequeued(count as int));
    }

    /// Dequeues at most `size` elements, as far as they are contiguous, and returns them. What the
    /// caller leaves in them is what the freed slots hold.
    pub fn dequeue_many(&mut self, size: usize) -> (front: &mut [T])
        requires
            old(self).wf(),
        ensures
            front@ == old(self)@.chunk(0, size as int),
            final(front)@.len() == front@.len(),
            final(self).wf(),
            final(self)@ == old(self)@.with_front(final(front)@).dequeued(front@.len() as int),
    {
        let ghost storage = self.storage@;
        let ghost head = self.read_at as int;
        let count = self.chunk_len(0, size);
        let read_at = self.read_at;
        self.read_at = self.index_of(count);
        self.length = self.length - count;
        let front = range_mut(self.storage.as_mut_slice(), read_at, read_at + count);
        assert(front@ =~= old(self)@.chunk(0, size as int));
        proof {
            let length = old(self)@.contents.len() as int;
            lemma_front_dequeued(storage, head, length, final(front)@, count as int);
        }
        front
    }

    /// The length of the largest contiguous piece of at most `size` allocated elements from
    /// `offset` on.
    fn chunk_len(&self, offset: usize, size: usize) -> (count: usize)
        requires
            self.wf(),
        ensures
            count == self@.chunk_len(offset as int, size as int),
    {
        if offset > self.length {
            return 0;
        }
        let mut count = size;
        if count > self.length - offset {
            count = self.length - offset;
        }
        let until_end = self.until_end(offset);
        if count > until_end {
            count = until_end;
        }
        count
    }

    /// Returns the largest contiguous slice of at most `size` allocated elements, from `offset`
    /// elements past the first one on.
    pub fn get_allocated(&self, offset: usize, size: usize) -> (chunk: &[T])
        requires
            self.wf(),
        ensures
            chunk@ == self@.chunk(offset as int, size as int),
    {
        let count = self.chunk_len(offset, size);
        let start: usize = if offset > self.length {
            0
        } else {
            self.index_of(offset)
        };
        let chunk = slice_subrange(self.storage.as_slice(), start, start + count);
        assert(chunk@ =~= self@.chunk(offset as int, size as int));
        chunk
    }

    /// Returns the largest contiguous slice of at most `size` free slots, from `offset` slots past
    /// the last allocated element on.
    pub fn get_unallocated(&mut self, offset: usize, size: usize) -> (slots: &mut [T])
        requires
            old(self).wf(),
        ensures
            slots@ == old(self)@.free_chunk(offset as int, size as int),
            final(slots)@.len() == slots@.len(),
            final(self).wf(),
            final(self)@ == old(self)@.with_free(offset as int, final(slots)@),
    {
        let ghost storage = self.storage@;
        let ghost head = self.read_at as int;
        let window = self.window();
        if offset > window {
            let slots = range_mut(self.storage.as_mut_slice(), 0, 0);
            proof {
                let written = final(slots)@;
                assert(storage.take(0) + written + storage.skip(0) =~= storage);
            }
            return slots;
        }
        let mut count = size;
        if count > window - offset {
            count = window - offset;
        }
        let start = self.index_of(self.length + offset);
        let until_end = self.until_end(self.length + offset);
        if count > until_end {
            count = until_end;
        }
        let slots = range_mut(self.storage.as_mut_slice(), start, start + count);
        assert(slots@ =~= old(self)@.free_chunk(offset as int, size as int));
        proof {
            let length = old(self)@.contents.len() as int;
            lemma_free_written(storage, head, length, offset as int, final(slots)@, 0);
            assert(old(self)@.with_free(offset as int, final(slots)@).allocated(0) =~= old(
                self,
            )@.with_free(offset as int, final(slots)@));
        }
        slots
    }
}

impl<'a, T: Copy> RingBuffer<'a, T> {
    /// Writes as much of `data` as fits to the free slots, from `offset` slots past the last
    /// allocated element on, and returns how much that was.
    pub fn write_unallocated(&mut self, offset: usize, data: &[T]) -> (written: usize)
        requires
            old(self).wf(),
        ensures
            final(self).wf(),
            written == old(self)@.writable(offset as int, data@.len() as int),
            final(self)@ == old(self)@.with_free(offset as int, data@.take(written as int)),
    {
        proof {
            self@.lemma_free_chunks(offset as int, data@.len() as int);
        }
        let slots = self.get_unallocated(offset, data.len());
        let first: usize = slots.len();
        copy_over(slots, slice_subrange(data, 0, first));
        let rest = slice_subrange(data, first, data.len());
        let slots = self.get_unallocated(offset + first, rest.len());
        let second: usize = slots.len();
        copy_over(slots, slice_subrange(rest, 0, second));
        proof {
            let start = old(self)@;
            assert(data@.take(first as int) + rest@.take(second as int) =~= data@.take(
                first + second,
            ));
            start.lemma_with_free_twice(
                offset as int,
                data@.take(first as int),
                rest@.take(second as int),
            );
        }
        first + second
    }

    /// Enqueues as much of `data` as fits, and returns how much that was.
    pub fn enqueue_slice(&mut self, data: &[T]) -> (enqueued: usize)
        requires
            old(self).wf(),
        ensures
            final(self).wf(),
            enqueued == old(self)@.writable(0, data@.len() as int),
            final(self)@ == old(self)@.enqueued(data@.take(enqueued as int)),
    {
        if self.length == 0 {
            self.read_at = 0;
        }
        assert(self@ =~= old(self)@.rewound());
        let size = self.write_unallocated(0, data);
        self.enqueue_unallocated(size);
        size
    }

    /// Reads as many elements into `data` as there are from `offset` on, without dequeuing them,
    /// and returns how many that was.
    pub fn read_allocated(&self, offset: usize, data: &mut [T]) -> (read: usize)
        requires
            self.wf(),
        ensures
            read == self@.piece(offset as int, old(data)@.len() as int).len(),
            final(data)@ == self@.piece(offset as int, old(data)@.len() as int) + old(
                data,
            )@.skip(read as int),
    {
        let size: usize = data.len();
        let ghost before = data@;
        let chunk = self.get_allocated(offset, size);
        let first: usize = chunk.len();
        copy_over(range_mut(data, 0, first), chunk);
        let chunk = self.get_allocated(offset + first, size - first);
        let second: usize = chunk.len();
        copy_over(range_mut(data, first, first + second), chunk);
        assert(data@ =~= self@.piece(offset as int, size as int) + before.skip(first + second));
        first + second
    }

    /// Dequeues as many elements into `data` as there are, and returns how many that was.
    pub fn dequeue_slice(&mut self, data: &mut [T]) -> (dequeued: usize)
        requires
            old(self).wf(),
        ensures
            final(self).wf(),
            dequeued == min(old(data)@.len() as int, old(self)@.contents.len() as int),
            final(data)@ == old(self)@.contents.take(dequeued as int) + old(data)@.skip(
                dequeued as int,
            ),
            final(self)@ == old(self)@.dequeued(dequeued as int),
    {
        let size: usize = data.len();
        let read = self.read_allocated(0, data);
        assert(self@.piece(0, size as int) =~= self@.contents.take(read as int));
        self.dequeue_allocated(read);
        read
    }
}

} // verus!
