use tcp_injection::storage::masked_ring_buffer::MaskedSocketBuffer;
use tcp_injection::storage::ring_buffer::RingBuffer;

fn buffer(capacity: usize) -> MaskedSocketBuffer<'static> {
    MaskedSocketBuffer::new(RingBuffer::new(vec![0u8; capacity]))
}

/// A buffer of 8 slots whose first byte lies at storage index 6, so that its contents wrap around
/// after two bytes.
fn wrapped(data: &[u8]) -> MaskedSocketBuffer<'static> {
    let mut buffer = buffer(8);
    assert_eq!(buffer.enqueue_slice(b"......x"), 7);
    buffer.dequeue_allocated(6);
    assert_eq!(buffer.enqueue_slice(data), data.len());
    buffer.dequeue_allocated(1);
    buffer
}

#[test]
fn sizes_of_an_empty_and_a_full_buffer() {
    let mut buffer = buffer(4);
    assert_eq!(buffer.capacity(), 4);
    assert_eq!(buffer.len(), 0);
    assert_eq!(buffer.window(), 0);
    assert!(buffer.is_empty());
    assert!(!buffer.is_full());
    assert_eq!(buffer.enqueue_slice(b"abcdef"), 4);
    assert_eq!(buffer.len(), 4);
    assert_eq!(buffer.window(), 4);
    assert!(!buffer.is_empty());
    assert!(buffer.is_full());
    assert_eq!(buffer.enqueue_already_sent(b"g"), 0);
    assert_eq!(buffer.mask_debug_info(), (4, 4));
}

#[test]
fn a_buffer_without_capacity() {
    let mut buffer = buffer(0);
    assert!(buffer.is_empty());
    assert!(buffer.is_full());
    assert_eq!(buffer.enqueue_slice(b"a"), 0);
    assert_eq!(buffer.dequeue_many(3), b"");
    assert_eq!(buffer.get_transmittable(0, 5), b"");
    assert_eq!(buffer.find_next_transmittable_offset(0), None);
    assert!(buffer.is_range_fully_transmittable(0, 0));
    assert_eq!(buffer.get_unmasked(0, 3), b"");
    assert_eq!(buffer.debug_text(), "MaskedSocketBuffer { empty }");
}

#[test]
fn contents_of_the_given_ring_are_transmittable() {
    let mut ring = RingBuffer::new(vec![0u8; 4]);
    ring.enqueue_slice(b"ab");
    let buffer: MaskedSocketBuffer<'_> = ring.into();
    assert_eq!(buffer.len_to_transmit(), 2);
    assert_eq!(buffer.get_transmittable(0, 2), b"ab");
}

#[test]
fn storage_can_be_borrowed() {
    let mut storage = [0u8; 4];
    {
        let mut buffer = MaskedSocketBuffer::new(RingBuffer::from_slice(&mut storage));
        assert_eq!(buffer.enqueue_slice(b"abc"), 3);
        buffer.dequeue_allocated(2);
        assert_eq!(buffer.enqueue_already_sent(b"de"), 2);
        assert_eq!(buffer.get_unmasked(0, 3), b"cde");
    }
    assert_eq!(&storage, b"ebcd");
}

#[test]
fn transmittable_data_is_found_across_the_wrap() {
    // The run crosses the end of the storage.
    let mut buffer = wrapped(b"abcdef");
    assert_eq!(buffer.get_allocated(0, 6), b"a");
    assert_eq!(buffer.get_transmittable(0, 6), b"abcdef");
    assert_eq!(buffer.get_transmittable(0, 3), b"abc");
    // Everything before the end of the storage was already sent.
    buffer.mark_as_already_sent(0, 2);
    assert_eq!(buffer.find_next_transmittable_offset(0), Some(2));
    assert_eq!(buffer.get_transmittable(0, 6), b"cdef");
    assert_eq!(buffer.get_transmittable(0, 2), b"");
}

#[test]
fn ranges_past_the_end_are_cut_off() {
    let mut buffer = buffer(8);
    buffer.enqueue_slice(b"abc");
    assert_eq!(buffer.get_transmittable(1, usize::MAX), b"bc");
    assert_eq!(buffer.get_transmittable(3, 1), b"");
    assert_eq!(buffer.get_transmittable(usize::MAX, usize::MAX), b"");
    assert_eq!(buffer.get_allocated(1, usize::MAX), b"bc");
    assert_eq!(buffer.get_allocated(usize::MAX, 1), b"");
    assert_eq!(buffer.get_unmasked(2, 100), b"c");
    assert_eq!(buffer.get_unmasked(50, 100), b"");
    assert_eq!(buffer.get_unmasked(2, 2), b"");
    assert!(!buffer.is_range_fully_transmittable(2, 2));
    buffer.mark_as_already_sent(2, 100);
    buffer.mark_as_already_sent(50, 100);
    assert_eq!(buffer.len_to_transmit(), 2);
    // What is enqueued behind the marked range is transmitted all the same.
    buffer.enqueue_slice(b"de");
    assert_eq!(buffer.get_transmittable(2, 3), b"de");
}

#[test]
fn next_offset_is_the_first_one_that_is_transmittable() {
    let mut buffer = buffer(8);
    buffer.enqueue_already_sent(b"ab");
    buffer.enqueue_slice(b"cd");
    buffer.enqueue_already_sent(b"e");
    assert_eq!(buffer.find_next_transmittable_offset(0), Some(2));
    assert_eq!(buffer.find_next_transmittable_offset(3), Some(3));
    assert_eq!(buffer.find_next_transmittable_offset(4), None);
    assert_eq!(buffer.find_next_transmittable_offset(100), None);
    // What is found in a range starts at the next offset.
    assert_eq!(buffer.get_transmittable(0, 2), b"");
    assert_eq!(buffer.get_transmittable(0, 3), b"c");
    assert_eq!(buffer.get_transmittable(0, 8), b"cd");
}

#[test]
fn dequeue_transmittable_dequeues_across_the_wrap() {
    let mut buffer = wrapped(b"abcdef");
    buffer.mark_as_already_sent(0, 1);
    buffer.mark_as_already_sent(3, 1);
    let (transmittable, masked) = buffer.dequeue_transmittable(3);
    assert_eq!(transmittable, b"bce");
    assert_eq!(masked, b"ad");
    assert_eq!(buffer.len(), 1);
    assert_eq!(buffer.get_unmasked(0, 1), b"f");
    assert_eq!(buffer.len_to_transmit(), 1);
}

#[test]
fn dequeue_transmittable_takes_what_there_is() {
    let mut buffer = buffer(8);
    buffer.enqueue_slice(b"a");
    buffer.enqueue_already_sent(b"bc");
    assert_eq!(buffer.dequeue_transmittable(0), (vec![], vec![]));
    assert_eq!(buffer.len(), 3);
    assert_eq!(buffer.dequeue_transmittable(5), (b"a".to_vec(), b"bc".to_vec()));
    assert!(buffer.is_empty());
    assert_eq!(buffer.dequeue_transmittable(5), (vec![], vec![]));
}

#[test]
fn enqueue_many_with_fills_contiguous_slots() {
    let mut buffer = buffer(8);
    buffer.enqueue_slice(b"abcdef");
    buffer.dequeue_allocated(4);
    let (size, seen) = buffer.enqueue_many_with(|slots| {
        slots[0] = b'x';
        slots[1] = b'y';
        (1, slots.len())
    });
    assert_eq!((size, seen), (1, 2));
    assert_eq!(buffer.get_unmasked(0, 8), b"efx");
    assert_eq!(buffer.len_to_transmit(), 3);
    // What was written past the returned size is kept in the free slots.
    buffer.enqueue_unallocated(1);
    assert_eq!(buffer.get_unmasked(0, 8), b"efxy");
    // The free slots now start at the beginning of the storage.
    let (size, seen) = buffer.enqueue_many_with(|slots| (0, slots.to_vec()));
    assert_eq!(size, 0);
    assert_eq!(seen, b"abcd");
}

#[test]
fn enqueue_rewinds_an_empty_buffer() {
    let mut buffer = buffer(4);
    buffer.enqueue_slice(b"abc");
    buffer.dequeue_allocated(3);
    let (_, seen) = buffer.enqueue_many_with(|slots| (4, slots.to_vec()));
    assert_eq!(seen, b"abc\0");
    assert_eq!(buffer.get_allocated(0, 4), b"abc\0");
}

#[test]
fn dequeue_many_with_takes_from_the_front() {
    let mut buffer = wrapped(b"abcdef");
    buffer.mark_as_already_sent(1, 1);
    let (size, seen) = buffer.dequeue_many_with(|front| {
        let seen = front.to_vec();
        (front.len(), seen)
    });
    assert_eq!((size, seen), (1, b"a".to_vec()));
    assert_eq!(buffer.get_transmittable(0, 5), b"cdef");
    let (size, seen) = buffer.dequeue_many_with(|front| (2, front.to_vec()));
    assert_eq!((size, seen), (2, b"bcdef".to_vec()));
    assert_eq!(buffer.get_unmasked(0, 3), b"def");
    assert_eq!(buffer.len_to_transmit(), 3);
}

#[test]
fn dequeued_slots_keep_what_is_left_in_them() {
    let mut buffer = buffer(3);
    buffer.enqueue_slice(b"abc");
    let front = buffer.dequeue_many(2);
    assert_eq!(front, b"ab");
    front[0] = b'z';
    buffer.enqueue_unallocated(2);
    assert_eq!(buffer.get_unmasked(0, 3), b"czb");
}

#[test]
fn dequeue_many_stops_at_the_wrap() {
    let mut buffer = wrapped(b"abcdef");
    assert_eq!(buffer.dequeue_many(3), b"a");
    assert_eq!(buffer.dequeue_many(3), b"bcd");
    assert_eq!(buffer.len(), 2);
}

#[test]
fn dequeue_slice_goes_across_the_wrap() {
    let mut buffer = wrapped(b"abcdef");
    buffer.mark_as_already_sent(4, 1);
    let mut data = [b'-'; 4];
    assert_eq!(buffer.dequeue_slice(&mut data), 4);
    assert_eq!(&data, b"abcd");
    assert_eq!(buffer.get_transmittable(0, 2), b"f");
    let mut data = [b'-'; 4];
    assert_eq!(buffer.dequeue_slice(&mut data), 2);
    assert_eq!(&data, b"ef--");
}

#[test]
fn read_allocated_does_not_dequeue() {
    let mut buffer = wrapped(b"abcdef");
    let mut data = [b'-'; 4];
    assert_eq!(buffer.read_allocated(4, &mut data), 2);
    assert_eq!(&data, b"ef--");
    assert_eq!(buffer.read_allocated(0, &mut data), 4);
    assert_eq!(&data, b"abcd");
    assert_eq!(buffer.read_allocated(7, &mut data), 0);
    assert_eq!(buffer.len(), 6);
}

#[test]
fn unallocated_slots_can_be_written_out_of_order() {
    let mut buffer = buffer(6);
    buffer.enqueue_slice(b"abcd");
    buffer.dequeue_allocated(3);
    assert_eq!(buffer.write_unallocated(2, b"ghijk"), 3);
    assert_eq!(buffer.write_unallocated(0, b"ef"), 2);
    assert_eq!(buffer.write_unallocated(6, b"x"), 0);
    assert_eq!(buffer.len(), 1);
    buffer.enqueue_unallocated(5);
    assert_eq!(buffer.get_unmasked(0, 6), b"defghi");
    assert_eq!(buffer.len_to_transmit(), 6);
}

#[test]
fn marking_and_resetting_changes_nothing() {
    let mut buffer = buffer(8);
    buffer.enqueue_slice(b"abcdef");
    buffer.mark_as_already_sent(1, 3);
    assert_eq!(buffer.get_transmittable(1, 3), b"");
    assert_eq!(buffer.get_unmasked(0, 6), b"abcdef");
    buffer.reset_mask_range(1, 3);
    assert_eq!(buffer.get_transmittable(1, 3), b"bcd");
    assert_eq!(buffer.get_transmittable(0, 6), b"abcdef");
}

#[test]
fn clearing_forgets_the_mask() {
    let mut buffer = buffer(4);
    buffer.enqueue_already_sent(b"abcd");
    buffer.clear();
    assert!(buffer.is_empty());
    assert_eq!(buffer.window(), 0);
    buffer.enqueue_unallocated(4);
    assert_eq!(buffer.get_transmittable(0, 4), b"abcd");
}

#[test]
fn fpga_sends_then_host_sends() {
    let mut buffer = buffer(16);
    // The FPGA has sent A; the host has sent B through it.
    buffer.enqueue_already_sent(b"AAA");
    buffer.enqueue_already_sent(b"BB");
    assert_eq!(buffer.get_unmasked(0, buffer.len()), b"AAABB");
    assert_eq!(buffer.len_to_transmit(), 0);
    assert_eq!(buffer.find_next_transmittable_offset(0), None);
    assert_eq!(buffer.get_transmittable(0, 16), b"");
}

#[test]
fn fpga_sends_then_host_sends_twice() {
    let mut buffer = buffer(16);
    buffer.enqueue_already_sent(b"AAA");
    buffer.enqueue_already_sent(b"BB");
    buffer.enqueue_already_sent(b"C");
    assert_eq!(buffer.get_unmasked(0, buffer.len()), b"AAABBC");
    assert_eq!(buffer.find_next_transmittable_offset(0), None);
}

#[test]
fn debug_text_is_exact() {
    let mut buffer = buffer(16);
    buffer.enqueue_slice(b"A ");
    buffer.enqueue_already_sent(&[b'x', 0xff]);
    buffer.enqueue_slice(&[0x0a, 0x7f, b'~', b'!']);
    buffer.enqueue_already_sent(&[0x00, b' ']);
    assert_eq!(
        buffer.debug_text(),
        "MaskedSocketBuffer { 6/10 transmittable: 'A' ' ' ['x''] [ff] 0a 7f '~' '!' [00] [' ''] }"
    );
}

#[test]
fn debug_text_of_one_byte() {
    let mut buffer = buffer(16);
    buffer.enqueue_already_sent(&[0xa5]);
    assert_eq!(
        buffer.debug_text(),
        "MaskedSocketBuffer { 0/1 transmittable: [a5] }"
    );
}

#[test]
fn trace_shows_what_was_looked_at() {
    let mut buffer = wrapped(b"abcdef");
    buffer.mark_as_already_sent(0, 2);
    assert!(buffer.trace_transmittable(0, 0).is_none());
    let trace = buffer.trace_transmittable(0, 3).unwrap();
    assert_eq!(trace.buffer_len, 6);
    assert_eq!(trace.mask_len, 8);
    assert_eq!(trace.data, b"a");
    assert_eq!(trace.mask, vec![false, false, true]);
    assert_eq!(trace.result, b"c");
    let trace = buffer.trace_transmittable(5, 9).unwrap();
    assert_eq!(trace.mask, vec![true, true, true]);
    assert_eq!(trace.data, b"f");
    let trace = buffer.trace_transmittable(20, 9).unwrap();
    assert_eq!(trace.mask, Vec::<bool>::new());
    assert_eq!(trace.data, b"");
}

#[test]
fn dequeue_transmittable_ends_with_a_transmittable_byte() {
    let mut buffer = buffer(8);
    buffer.enqueue_slice(b"a");
    buffer.enqueue_already_sent(b"b");
    buffer.enqueue_slice(b"cd");
    buffer.enqueue_already_sent(b"e");
    assert_eq!(buffer.dequeue_transmittable(2), (b"ac".to_vec(), b"b".to_vec()));
    assert_eq!(buffer.get_unmasked(0, 2), b"de");
    assert_eq!(buffer.len_to_transmit(), 1);
}

#[test]
fn first_in_first_out() {
    let mut buffer = buffer(8);
    buffer.enqueue_slice(b"ab");
    buffer.enqueue_already_sent(b"cde");
    buffer.dequeue_allocated(2);
    assert_eq!(buffer.get_unmasked(0, 8), b"cde");
    assert_eq!(buffer.mask_debug_info(), (0, 3));
    assert_eq!(buffer.capacity(), 8);
}
