//! Channel buffers: both modes behind one interface.

use conduit_core::{ChannelBuffer, Error, PushOutcome, Queue, RingBuffer};

#[test]
fn lossy_delegates_correctly() {
    let mut cb = ChannelBuffer::Lossy(RingBuffer::new(1024));

    let dropped = cb.push(b"alpha").unwrap();
    assert_eq!(dropped, 0);

    cb.push(b"beta").unwrap();
    assert_eq!(cb.frame_count(), 2);
    assert_eq!(cb.try_pop().unwrap(), b"alpha");
    assert_eq!(cb.try_pop().unwrap(), b"beta");
    assert!(cb.try_pop().is_none());
    assert!(!cb.is_ordered());
}

#[test]
fn reliable_delegates_correctly() {
    let mut cb = ChannelBuffer::Reliable(Queue::new(1024));

    let dropped = cb.push(b"alpha").unwrap();
    assert_eq!(dropped, 0);

    cb.push(b"beta").unwrap();
    assert_eq!(cb.frame_count(), 2);
    assert_eq!(cb.try_pop().unwrap(), b"alpha");
    assert_eq!(cb.try_pop().unwrap(), b"beta");
    assert!(cb.try_pop().is_none());
    assert!(cb.is_ordered());
}

#[test]
fn push_lossy_never_errors() {
    // Capacity for exactly 1 frame of 4 bytes (cost = 8).
    let mut cb = ChannelBuffer::Lossy(RingBuffer::new(8));

    // First push fills the buffer.
    assert_eq!(cb.push(b"aaaa").unwrap(), 0);

    // Second push evicts the first, but never errors.
    assert_eq!(cb.push(b"bbbb").unwrap(), 1);

    assert_eq!(cb.frame_count(), 1);
    assert_eq!(cb.try_pop().unwrap(), b"bbbb");
}

#[test]
fn push_reliable_errors_when_full() {
    // Capacity for exactly 2 frames of 4 bytes (cost = 16).
    let mut cb = ChannelBuffer::Reliable(Queue::new(16));

    cb.push(b"aaaa").unwrap(); // cost 8
    cb.push(b"bbbb").unwrap(); // cost 8, total 16

    // Third push should fail.
    let err = cb.push(b"cccc").unwrap_err();
    assert!(matches!(err, Error::ChannelFull));

    // Original frames still intact.
    assert_eq!(cb.frame_count(), 2);
}

#[test]
fn push_checked_lossy() {
    let mut cb = ChannelBuffer::Lossy(RingBuffer::new(8));
    assert_eq!(cb.push_checked(b"aaaa").unwrap(), PushOutcome::Accepted(0));
    assert_eq!(cb.push_checked(b"bbbb").unwrap(), PushOutcome::Accepted(1));

    // Too large for buffer (cost 104 > 8).
    assert_eq!(cb.push_checked(&[0u8; 100]).unwrap(), PushOutcome::TooLarge);
}

#[test]
fn push_checked_reliable() {
    let mut cb = ChannelBuffer::Reliable(Queue::new(16));
    assert_eq!(cb.push_checked(b"aaaa").unwrap(), PushOutcome::Accepted(0));
    assert_eq!(cb.push_checked(b"bbbb").unwrap(), PushOutcome::Accepted(0));
    let err = cb.push_checked(b"cccc").unwrap_err();
    assert!(matches!(err, Error::ChannelFull));
}

#[test]
fn drain_format_identical() {
    let mut lossy = ChannelBuffer::Lossy(RingBuffer::new(1024));
    let mut reliable = ChannelBuffer::Reliable(Queue::new(1024));

    // Push identical data to both.
    let frames: &[&[u8]] = &[b"hello", b"world", b"test"];
    for frame in frames {
        lossy.push(frame).unwrap();
        reliable.push(frame).unwrap();
    }

    let lossy_blob = lossy.drain_all();
    let reliable_blob = reliable.drain_all();

    assert_eq!(lossy_blob, reliable_blob);
    assert!(!lossy_blob.is_empty());
}

#[test]
fn clear_delegates() {
    let mut cb = ChannelBuffer::Reliable(Queue::new(1024));
    cb.push(b"one").unwrap();
    cb.push(b"two").unwrap();
    assert_eq!(cb.frame_count(), 2);

    cb.clear();
    assert_eq!(cb.frame_count(), 0);
    assert_eq!(cb.bytes_used(), 0);
}

#[test]
fn bytes_used_delegates() {
    let mut cb = ChannelBuffer::Lossy(RingBuffer::new(1024));
    assert_eq!(cb.bytes_used(), 0);

    cb.push(b"abc").unwrap(); // cost = 4 + 3 = 7
    assert_eq!(cb.bytes_used(), 7);
}

#[test]
fn reliable_frees_room_after_pop() {
    // A reliable channel with room for one frame refuses the second and keeps
    // the first; after a pop the second fits.
    let mut cb = ChannelBuffer::Reliable(Queue::new(8));
    cb.push(b"aaaa").unwrap();
    assert!(matches!(cb.push(b"bbbb"), Err(Error::ChannelFull)));
    assert_eq!(cb.try_pop().unwrap(), b"aaaa");
    cb.push(b"bbbb").unwrap();
    assert_eq!(cb.frame_count(), 1);
}

#[test]
fn lossy_and_reliable_drain_the_same_frames_after_eviction() {
    // The lossy buffer keeps the newest frames; a reliable queue given only
    // those frames drains the same bytes.
    let mut lossy = ChannelBuffer::Lossy(RingBuffer::new(16));
    for f in [b"aaaa", b"bbbb", b"cccc"] {
        lossy.push(f).unwrap();
    }
    let mut reliable = ChannelBuffer::Reliable(Queue::new(0));
    for f in [b"bbbb", b"cccc"] {
        reliable.push(f).unwrap();
    }
    assert_eq!(lossy.drain_all(), reliable.drain_all());
}
