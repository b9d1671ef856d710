use tcp_injection::storage::masked_ring_buffer::MaskedSocketBuffer;
use tcp_injection::storage::ring_buffer::RingBuffer;

#[test]
fn test_basic_enqueue_dequeue() {
    let mut buffer = MaskedSocketBuffer::new(RingBuffer::new(vec![0u8; 16]));

    // Enqueue normal data
    let size = buffer.enqueue_slice(b"hello");
    assert_eq!(size, 5);
    assert_eq!(buffer.len(), 5);

    // All should be transmittable
    let transmittable = buffer.get_transmittable(0, 5);
    assert_eq!(transmittable, b"hello");

    // Dequeue
    let mut data = [0u8; 5];
    let dequeued = buffer.dequeue_slice(&mut data);
    assert_eq!(dequeued, 5);
    assert_eq!(&data, b"hello");
    assert_eq!(buffer.len(), 0);
}

#[test]
fn test_already_sent_masking() {
    let mut buffer = MaskedSocketBuffer::new(RingBuffer::new(vec![0u8; 16]));

    // Enqueue normal data
    buffer.enqueue_slice(b"abc");

    // Enqueue already-sent data
    buffer.enqueue_already_sent(b"def");

    // Enqueue more normal data
    buffer.enqueue_slice(b"ghi");

    assert_eq!(buffer.len(), 9);

    // Only "abc" and "ghi" should be transmittable
    let transmittable = buffer.get_transmittable(0, 9);
    assert_eq!(transmittable, b"abc");

    // But all data should be readable
    let all_data = buffer.get_allocated(0, 9);
    assert_eq!(all_data, b"abcdefghi");
}

#[test]
fn test_dequeue_updates_mask() {
    let mut buffer = MaskedSocketBuffer::new(RingBuffer::new(vec![0u8; 16]));

    // Setup: normal, already-sent, normal
    buffer.enqueue_slice(b"ab"); // positions 0-1: transmittable
    buffer.enqueue_already_sent(b"cd"); // positions 2-3: not transmittable
    buffer.enqueue_slice(b"ef"); // positions 4-5: transmittable

    // Check initial state
    let transmittable = buffer.get_transmittable(0, 6);
    assert_eq!(transmittable, b"ab");

    // Dequeue 3 bytes ("abc")
    let dequeued_slice = buffer.dequeue_many(3);
    assert_eq!(dequeued_slice, b"abc");
    assert_eq!(buffer.len(), 3);

    // Now positions should be shifted: "def" where "d" is not transmittable, "ef" are transmittable
    let transmittable = buffer.get_transmittable(0, 3);
    assert_eq!(transmittable, b"ef");
}

#[test]
fn test_dequeue_transmittable() {
    let mut buffer = MaskedSocketBuffer::new(RingBuffer::new(vec![0u8; 16]));

    // Setup buffer: exxxyyy where "e" is masked (from WrongSynchronizer simulation)
    buffer.enqueue_already_sent(b"e"); // masked byte first
    buffer.enqueue_slice(b"xxxyyy"); // normal bytes

    // Verify buffer state
    assert_eq!(buffer.len(), 7);
    assert_eq!(buffer.len_to_transmit(), 6); // only "xxxyyy" should be transmittable

    // Show debug output
    println!("Buffer state: {}", buffer.debug_text());

    // Dequeue 3 transmittable bytes
    let (transmittable, masked) = buffer.dequeue_transmittable(3);
    assert_eq!(transmittable, b"xxx");
    assert_eq!(masked, b"e");

    // Buffer should now have "yyy" remaining
    assert_eq!(buffer.len(), 3);
    assert_eq!(buffer.len_to_transmit(), 3);

    println!("After dequeue: {}", buffer.debug_text());

    // Get remaining transmittable data
    let remaining = buffer.get_transmittable(0, 3);
    assert_eq!(remaining, b"yyy");
}

#[test]
fn test_debug_output() {
    let mut buffer = MaskedSocketBuffer::new(RingBuffer::new(vec![0u8; 16]));

    // Test empty buffer
    println!("Empty: {}", buffer.debug_text());

    // Test mixed content
    buffer.enqueue_slice(b"ABC"); // transmittable
    buffer.enqueue_already_sent(b"xy"); // masked
    buffer.enqueue_slice(b"123"); // transmittable

    println!("Mixed: {}", buffer.debug_text());

    // Test with non-ASCII bytes
    buffer.enqueue_already_sent(&[0xFF, 0x00]); // masked non-ASCII
    buffer.enqueue_slice(&[0x0A, 0x20]); // transmittable non-ASCII

    println!("With non-ASCII: {}", buffer.debug_text());
}

#[test]
fn test_debug_with_wraparound() {
    let mut buffer = MaskedSocketBuffer::new(RingBuffer::new(vec![0u8; 8]));

    // Fill buffer with some data
    buffer.enqueue_slice(b"abcdef"); // 6 bytes

    // Dequeue some to create wraparound scenario
    let _ = buffer.dequeue_many(4); // Remove "abcd", leaves "ef"

    // Add more data that will wrap around
    buffer.enqueue_already_sent(b"X"); // masked
    buffer.enqueue_slice(b"12345"); // will wrap around

    println!("Wraparound buffer: {}", buffer.debug_text());

    // Verify the debug output shows all data
    let debug_str = buffer.debug_text();
    assert!(debug_str.contains("'e'"));
    assert!(debug_str.contains("'f'"));
    assert!(debug_str.contains("['X'']"));
    assert!(debug_str.contains("'1'"));
    assert!(debug_str.contains("'2'"));
    assert!(debug_str.contains("'3'"));
    assert!(debug_str.contains("'4'"));
    assert!(debug_str.contains("'5'"));
}

#[test]
fn test_get_unmasked_wraparound() {
    let mut buffer = MaskedSocketBuffer::new(RingBuffer::new(vec![0u8; 8]));

    // Fill buffer to near capacity
    buffer.enqueue_slice(b"abcdef"); // 6 bytes

    // Dequeue some to create space at beginning and force wraparound
    let _ = buffer.dequeue_many(4); // Remove "abcd", leaves "ef" at positions 0-1

    // Add more data that will wrap around
    buffer.enqueue_slice(b"ghijk"); // 5 bytes, will wrap around

    // Buffer now has "ef" followed by "ghijk" that wraps around
    // Verify we can get all the data correctly
    let all_data = buffer.get_unmasked(0, buffer.len());
    assert_eq!(all_data, b"efghijk");

    // Test getting partial data that crosses wrap boundary
    let partial = buffer.get_unmasked(1, 5); // Should get "fghi"
    assert_eq!(partial, b"fghi");

    // Test getting data from end that wraps
    let end_data = buffer.get_unmasked(2, 7); // Should get "ghijk"
    assert_eq!(end_data, b"ghijk");
}

#[test]
fn test_reset_mask_range() {
    let mut buffer = MaskedSocketBuffer::new(RingBuffer::new(vec![0u8; 16]));

    // Add some data
    buffer.enqueue_slice(b"abcdefghij");
    assert_eq!(buffer.len(), 10);

    // Mark some bytes as already sent
    buffer.mark_as_already_sent(2, 4); // Mark "cdef" as already sent

    // Verify mask state
    assert_eq!(buffer.get_transmittable(0, 10), b"ab");
    assert!(!buffer.is_range_fully_transmittable(0, 10));
    assert!(buffer.is_range_fully_transmittable(0, 2)); // "ab"
    assert!(!buffer.is_range_fully_transmittable(2, 4)); // "cdef"
    assert!(buffer.is_range_fully_transmittable(6, 4)); // "ghij"

    // Reset mask for the masked range
    buffer.reset_mask_range(2, 4);

    // Verify all data is now transmittable again
    assert_eq!(buffer.get_transmittable(0, 10), b"abcdefghij");
    assert!(buffer.is_range_fully_transmittable(0, 10));
    assert!(buffer.is_range_fully_transmittable(2, 4)); // "cdef" should be transmittable again

    // Test partial reset
    buffer.mark_as_already_sent(1, 8); // Mark "bcdefghi" as already sent
    assert_eq!(buffer.get_transmittable(0, 10), b"a");

    // Reset only middle portion
    buffer.reset_mask_range(3, 4); // Reset "defg"
    assert_eq!(buffer.get_transmittable(0, 10), b"a");

    // Test reset beyond buffer length (should not crash)
    buffer.reset_mask_range(0, 20); // Beyond buffer size
    assert_eq!(buffer.get_transmittable(0, 10), b"abcdefghij");
}

#[test]
fn test_get_transmittable_contiguous_chunks() {
    let mut buffer = MaskedSocketBuffer::new(RingBuffer::new(vec![0u8; 16]));

    // Test case 1: a,b,c,d,e with mask T,T,T,F,T
    buffer.enqueue_slice(b"abcde");
    buffer.mark_as_already_sent(3, 1); // Mark 'd' as already sent (mask = false)

    let chunk1 = buffer.get_transmittable(0, 5);
    assert_eq!(chunk1, b"abc"); // Should get first contiguous chunk "abc", stop at 'd'

    // Test case 2: Starting from a non-transmittable byte should skip to next chunk
    let chunk2 = buffer.get_transmittable(3, 2);
    assert_eq!(chunk2, b"e"); // Should skip 'd' and get 'e'

    // Clear buffer and test case 3: a,b,c,d,e with mask F,T,T,F,T
    buffer.clear();
    buffer.enqueue_slice(b"abcde");
    buffer.mark_as_already_sent(0, 1); // Mark 'a' as already sent
    buffer.mark_as_already_sent(3, 1); // Mark 'd' as already sent

    let chunk3 = buffer.get_transmittable(0, 5);
    assert_eq!(chunk3, b"bc"); // Should skip 'a', get "bc", stop at 'd'

    // Test case 4: Starting from middle should still work
    let chunk4 = buffer.get_transmittable(3, 2);
    assert_eq!(chunk4, b"e"); // Should skip 'd' and get 'e'

    // Test case 5: All bytes masked
    buffer.mark_as_already_sent(1, 2); // Mark 'b','c' as already sent
    buffer.mark_as_already_sent(4, 1); // Mark 'e' as already sent
    let chunk5 = buffer.get_transmittable(0, 5);
    assert_eq!(chunk5, b""); // Should return empty - no transmittable bytes

    // Test case 6: A longer example
    buffer.clear();
    buffer.enqueue_slice(b"abcdefgh");
    // Create mask pattern: T,T,T,F,F,T,T,F
    buffer.mark_as_already_sent(3, 2); // Mark 'd','e' as already sent
    buffer.mark_as_already_sent(7, 1); // Mark 'h' as already sent

    let chunk6 = buffer.get_transmittable(0, 8);
    assert_eq!(chunk6, b"abc"); // First chunk

    let chunk7 = buffer.get_transmittable(3, 5);
    assert_eq!(chunk7, b"fg"); // Should skip 'd','e' and get "fg"
}
