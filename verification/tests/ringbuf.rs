//! The lossy ring buffer: bounded by bytes, drops the oldest frames.

use conduit_core::{PushOutcome, RingBuffer};

#[test]
fn ringbuf_push_and_pop() {
    let mut rb = RingBuffer::new(1024);
    let _ = rb.push(b"alpha");
    let _ = rb.push(b"beta");
    let _ = rb.push(b"gamma");

    assert_eq!(rb.frame_count(), 3);
    assert_eq!(rb.try_pop().unwrap(), b"alpha");
    assert_eq!(rb.try_pop().unwrap(), b"beta");
    assert_eq!(rb.try_pop().unwrap(), b"gamma");
    assert!(rb.try_pop().is_none());
}

#[test]
fn ringbuf_drain_all_format() {
    let mut rb = RingBuffer::new(1024);
    let _ = rb.push(b"hello");
    let _ = rb.push(b"world");

    let blob = rb.drain_all();

    // Parse: [u32 count][u32 len][bytes]...
    let count = u32::from_le_bytes(blob[0..4].try_into().unwrap());
    assert_eq!(count, 2);

    let len1 = u32::from_le_bytes(blob[4..8].try_into().unwrap()) as usize;
    assert_eq!(len1, 5);
    assert_eq!(&blob[8..8 + len1], b"hello");

    let offset2 = 8 + len1;
    let len2 = u32::from_le_bytes(blob[offset2..offset2 + 4].try_into().unwrap()) as usize;
    assert_eq!(len2, 5);
    assert_eq!(&blob[offset2 + 4..offset2 + 4 + len2], b"world");

    // Buffer should be empty now.
    assert_eq!(rb.frame_count(), 0);
    assert_eq!(rb.bytes_used(), 0);
}

#[test]
fn overflow_drops_oldest() {
    // Capacity for exactly 2 frames of 4 bytes each:
    //   frame cost = 4 (overhead) + 4 (payload) = 8 bytes
    //   2 frames = 16 bytes
    let mut rb = RingBuffer::new(16);

    let dropped = rb.push(b"aaaa"); // cost 8, total 8
    assert_eq!(dropped, 0);

    let dropped = rb.push(b"bbbb"); // cost 8, total 16
    assert_eq!(dropped, 0);

    // Third push must drop the oldest to fit.
    let dropped = rb.push(b"cccc"); // cost 8, needs to drop "aaaa"
    assert_eq!(dropped, 1);

    assert_eq!(rb.frame_count(), 2);
    assert_eq!(rb.try_pop().unwrap(), b"bbbb");
    assert_eq!(rb.try_pop().unwrap(), b"cccc");
}

#[test]
fn ringbuf_empty_drain() {
    let mut rb = RingBuffer::new(1024);
    let blob = rb.drain_all();
    assert!(blob.is_empty());
}

#[test]
fn ringbuf_frame_count_and_bytes() {
    let mut rb = RingBuffer::new(1024);

    assert_eq!(rb.frame_count(), 0);
    assert_eq!(rb.bytes_used(), 0);
    assert_eq!(rb.capacity(), 1024);

    let _ = rb.push(b"abc"); // cost = 4 + 3 = 7
    assert_eq!(rb.frame_count(), 1);
    assert_eq!(rb.bytes_used(), 7);

    let _ = rb.push(b"de"); // cost = 4 + 2 = 6
    assert_eq!(rb.frame_count(), 2);
    assert_eq!(rb.bytes_used(), 13);

    let _ = rb.try_pop();
    assert_eq!(rb.frame_count(), 1);
    assert_eq!(rb.bytes_used(), 6);
}

#[test]
fn ringbuf_clear() {
    let mut rb = RingBuffer::new(1024);
    let _ = rb.push(b"one");
    let _ = rb.push(b"two");
    let _ = rb.push(b"three");

    assert_eq!(rb.frame_count(), 3);
    rb.clear();
    assert_eq!(rb.frame_count(), 0);
    assert_eq!(rb.bytes_used(), 0);
    assert!(rb.try_pop().is_none());
}

#[test]
fn single_large_frame() {
    // Buffer capacity is 32 bytes. A frame of 100 bytes costs 104 bytes,
    // more than the capacity: it is silently discarded.
    let mut rb = RingBuffer::new(32);
    let _ = rb.push(b"ok"); // cost 6, fits
    let dropped = rb.push(&[0xFFu8; 100]); // cost 104, too large
    assert_eq!(dropped, 0); // not counted as "dropped oldest"

    // The small frame should still be there.
    assert_eq!(rb.frame_count(), 1);
    assert_eq!(rb.try_pop().unwrap(), b"ok");
}

#[test]
fn ringbuf_drain_then_push() {
    let mut rb = RingBuffer::new(1024);
    let _ = rb.push(b"first");
    let blob = rb.drain_all();
    assert!(!blob.is_empty());

    // Buffer is empty after drain; push more.
    let _ = rb.push(b"second");
    assert_eq!(rb.frame_count(), 1);
    assert_eq!(rb.try_pop().unwrap(), b"second");
}

#[test]
fn overflow_cascade() {
    // Capacity for exactly one 4-byte frame (cost = 8).
    let mut rb = RingBuffer::new(8);

    let _ = rb.push(b"aaaa"); // cost 8, fills completely
    assert_eq!(rb.frame_count(), 1);

    // Push a larger frame (6 bytes, cost 10 > 8), too large for the buffer.
    let dropped = rb.push(&[0u8; 6]);
    // The frame cannot fit even in an empty buffer, so it's discarded.
    assert_eq!(dropped, 0);

    // Original frame should still be intact.
    assert_eq!(rb.frame_count(), 1);
    assert_eq!(rb.try_pop().unwrap(), b"aaaa");
}

#[test]
fn with_default_capacity() {
    let rb = RingBuffer::with_default_capacity();
    assert_eq!(rb.capacity(), 64 * 1024);
}

#[test]
fn push_checked_reports_drops_and_too_large() {
    let mut rb = RingBuffer::new(16);
    assert_eq!(rb.push_checked(b"aaaa"), PushOutcome::Accepted(0));
    assert_eq!(rb.push_checked(b"bbbb"), PushOutcome::Accepted(0));
    // "cccccccc" costs 12: both older frames must go.
    assert_eq!(rb.push_checked(b"cccccccc"), PushOutcome::Accepted(2));
    assert_eq!(rb.push_checked(&[1u8; 13]), PushOutcome::TooLarge);
    assert_eq!(rb.frame_count(), 1);
    assert_eq!(rb.try_pop().unwrap(), b"cccccccc");
}

#[test]
fn eviction_drops_only_as_many_as_needed() {
    // Three frames of cost 5 in a 16-byte buffer; a frame of cost 6 needs
    // 6 - (16 - 15) = 5 bytes freed: exactly one frame goes.
    let mut rb = RingBuffer::new(16);
    for f in [b"a", b"b", b"c"] {
        assert_eq!(rb.push(f), 0);
    }
    assert_eq!(rb.bytes_used(), 15);
    assert_eq!(rb.push(b"dd"), 1);
    assert_eq!(rb.bytes_used(), 16);
    assert!(rb.bytes_used() <= rb.capacity());
    assert_eq!(rb.try_pop().unwrap(), b"b");
}

#[test]
fn frame_exactly_capacity_fits_in_empty_buffer() {
    let mut rb = RingBuffer::new(4);
    assert_eq!(rb.push(b""), 0); // cost 4 == capacity
    assert_eq!(rb.frame_count(), 1);
    assert_eq!(rb.push(b""), 1);
    assert_eq!(rb.frame_count(), 1);
}
