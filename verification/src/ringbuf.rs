//! In-process lossy ring buffer for high-frequency streaming.
//!
//! The buffer stores variable-length frames under a byte budget (default
//! 64 KB). When a push would exceed the budget the oldest frames are dropped
//! to make room: lossy by design, for consumers that drain fast enough for
//! real-time data.

use std::collections::VecDeque;
use vstd::prelude::*;

use crate::drain::{
    drain_wire, frame_cost, frame_record, lemma_drain_roundtrip, lemma_total_cost_first,
    lemma_total_cost_nonneg, lengths_fit_u32, parse_drain, records, total_cost,
};
use crate::wire::{append_bytes, push_u32};

verus! {

/// Default capacity in bytes (64 KB).
pub const DEFAULT_CAPACITY: usize = 65536;

/// Per-frame overhead: 4 bytes for the u32 LE length prefix.
pub const FRAME_OVERHEAD: usize = 4;

/// The outcome of [`RingBuffer::push_checked`].
#[derive(Debug, Clone, Copy, PartialEq, Eq, Structural)]
pub enum PushOutcome {
    /// The frame was stored; the number is how many older frames were evicted
    /// to make room.
    Accepted(usize),
    /// The frame (with its length prefix) is larger than the whole capacity
    /// and was discarded.
    TooLarge,
}

/// How many of the oldest frames a push of a frame costing `cost` evicts:
/// the fewest whose removal lets the rest and the new frame fit in `cap`.
pub open spec fn evictions(frames: Seq<Seq<u8>>, cost: int, cap: int) -> nat
    decreases frames.len(),
{
    if frames.len() == 0 || total_cost(frames) + cost <= cap {
        0
    } else {
        1 + evictions(frames.drop_first(), cost, cap)
    }
}

/// A lossy push of `frame` into a buffer in state `before`: the state after
/// it and how many of the oldest frames it evicted. A frame costing more than
/// the whole capacity is discarded and nothing is evicted.
pub open spec fn lossy_push(before: RingState, frame: Seq<u8>) -> (RingState, nat) {
    let cost = frame_cost(frame);
    if cost > before.capacity {
        (before, 0)
    } else {
        let n = evictions(before.frames, cost, before.capacity as int);
        (RingState { frames: before.frames.skip(n as int).push(frame), capacity: before.capacity }, n)
    }
}

/// The abstract state of a ring buffer: its frames, oldest first, and its
/// byte capacity.
#[verifier::ext_equal]
pub struct RingState {
    pub frames: Seq<Seq<u8>>,
    pub capacity: nat,
}

/// A lossy circular buffer for streaming binary frames.
///
/// Frames are variable-length byte strings stored with a u32 LE length
/// prefix. The buffer enforces a byte budget; when a push would exceed it the
/// oldest frames are dropped.
pub struct RingBuffer {
    /// Buffered frames in FIFO order.
    frames: VecDeque<Vec<u8>>,
    /// Total bytes used: the sum of `FRAME_OVERHEAD + frame.len()`.
    bytes_used: usize,
    /// Maximum byte budget.
    capacity: usize,
}

impl View for RingBuffer {
    type V = RingState;

    closed spec fn view(&self) -> RingState {
        RingState { frames: self.frames@.map_values(|f: Vec<u8>| f@), capacity: self.capacity as nat }
    }
}

impl RingBuffer {
    /// The buffer's invariant: the byte counter is the cost of the buffered
    /// frames, which stays within the capacity, and the capacity holds at
    /// least an empty frame.
    pub closed spec fn wf(&self) -> bool {
        &&& self.bytes_used == total_cost(self@.frames)
        &&& total_cost(self@.frames) <= self.capacity
        &&& self.capacity >= FRAME_OVERHEAD
    }

    /// Create a ring buffer with the given byte capacity, which must hold at
    /// least the 4-byte length prefix of an empty frame.
    pub fn new(capacity: usize) -> (rb: Self)
        requires
            capacity >= FRAME_OVERHEAD,
        ensures
            rb.wf(),
            rb@.frames == Seq::<Seq<u8>>::empty(),
            rb@.capacity == capacity,
    {
        let rb = RingBuffer { frames: VecDeque::new(), bytes_used: 0, capacity };
        assert(rb@.frames =~= Seq::<Seq<u8>>::empty());
        rb
    }

    /// Create a ring buffer with the default capacity (64 KB).
    pub fn with_default_capacity() -> (rb: Self)
        ensures
            rb.wf(),
            rb@.frames == Seq::<Seq<u8>>::empty(),
            rb@.capacity == DEFAULT_CAPACITY,
    {
        Self::new(DEFAULT_CAPACITY)
    }

    /// Cost of storing a single frame (length prefix + payload).
    fn frame_cost(frame: &[u8]) -> (c: usize)
        requires
            frame@.len() + FRAME_OVERHEAD <= usize::MAX,
        ensures
            c == frame_cost(frame@),
    {
        FRAME_OVERHEAD + frame.len()
    }

    /// Drop the oldest frame, adjusting the byte counter. Returns `true` if a
    /// frame was removed.
    fn drop_oldest(&mut self) -> (removed: bool)
        requires
            old(self).wf(),
        ensures
            final(self).wf(),
            final(self)@.capacity == old(self)@.capacity,
            removed == (old(self)@.frames.len() > 0),
            removed ==> final(self)@.frames == old(self)@.frames.drop_first(),
            !removed ==> final(self)@.frames == old(self)@.frames,
    {
        let ghost before = self@.frames;
        match self.frames.pop_front() {
            Some(oldest) => {
                proof {
                    lemma_total_cost_first(before);
                    lemma_total_cost_nonneg(before.drop_first());
                    assert(self@.frames =~= before.drop_first());
                }
                self.bytes_used = self.bytes_used - (FRAME_OVERHEAD + oldest.len());
                true
            },
            None => false,
        }
    }

    /// Push a frame into the buffer, returning how many of the oldest frames
    /// were dropped to make room.
    ///
    /// A frame whose cost (payload plus 4-byte prefix) exceeds the whole
    /// capacity is discarded, the buffer is left as it was and `0` is
    /// returned.
    pub fn push(&mut self, frame: &[u8]) -> (dropped: usize)
        requires
            old(self).wf(),
        ensures
            final(self).wf(),
            final(self)@.capacity == old(self)@.capacity,
            frame_cost(frame@) > old(self)@.capacity ==> {
                &&& dropped == 0
                &&& final(self)@.frames == old(self)@.frames
            },
            frame_cost(frame@) <= old(self)@.capacity ==> {
                &&& dropped == evictions(old(self)@.frames, frame_cost(frame@), old(self)@.capacity as int)
                &&& final(self)@.frames == old(self)@.frames.skip(dropped as int).push(frame@)
            },
            (final(self)@, dropped as nat) == lossy_push(old(self)@, frame@),
    {
        // Frame too large for this buffer: discard it.
        if frame.len() > self.capacity - FRAME_OVERHEAD {
            return 0;
        }
        let cost = Self::frame_cost(frame);
        let ghost cap = self.capacity as int;
        let ghost start = self@.frames;
        let initial_count = self.frames.len();
        let mut dropped: usize = 0;
        while cost > self.capacity - self.bytes_used
            invariant
                self.wf(),
                self.capacity == cap,
                cost == frame_cost(frame@),
                cost <= cap,
                dropped <= start.len(),
                start.len() == initial_count,
                self@.frames == start.skip(dropped as int),
                evictions(start, cost as int, cap) == dropped + evictions(
                    self@.frames,
                    cost as int,
                    cap,
                ),
            decreases self@.frames.len(),
        {
            let ghost cur = self@.frames;
            proof {
                if cur.len() == 0 {
                    assert(total_cost(cur) == 0);
                }
            }
            let removed = self.drop_oldest();
            assert(removed);
            assert(start.skip(dropped + 1) =~= cur.drop_first());
            dropped = dropped + 1;
        }
        let ghost kept = self@.frames;
        self.frames.push_back(slice_to_vec_u8(frame));
        self.bytes_used = self.bytes_used + cost;
        proof {
            assert(self@.frames =~= kept.push(frame@));
            assert(self@.frames.drop_last() =~= kept);
        }
        dropped
    }

    /// Push a frame with a richer outcome report: [`PushOutcome::TooLarge`]
    /// for a frame that can never fit, otherwise how many older frames were
    /// evicted.
    pub fn push_checked(&mut self, frame: &[u8]) -> (outcome: PushOutcome)
        requires
            old(self).wf(),
        ensures
            final(self).wf(),
            final(self)@.capacity == old(self)@.capacity,
            frame_cost(frame@) > old(self)@.capacity ==> {
                &&& outcome == PushOutcome::TooLarge
                &&& final(self)@.frames == old(self)@.frames
            },
            frame_cost(frame@) <= old(self)@.capacity ==> {
                let n = evictions(old(self)@.frames, frame_cost(frame@), old(self)@.capacity as int);
                &&& outcome == PushOutcome::Accepted(n as usize)
                &&& final(self)@.frames == old(self)@.frames.skip(n as int).push(frame@)
            },
    {
        if frame.len() > self.capacity - FRAME_OVERHEAD {
            return PushOutcome::TooLarge;
        }
        PushOutcome::Accepted(self.push(frame))
    }

    /// Drain all buffered frames into a single binary blob in the drain wire
    /// format and clear the buffer. An empty buffer drains to an empty blob.
    pub fn drain_all(&mut self) -> (blob: Vec<u8>)
        requires
            old(self).wf(),
        ensures
            final(self).wf(),
            final(self)@.capacity == old(self)@.capacity,
            final(self)@.frames == Seq::<Seq<u8>>::empty(),
            blob@ == drain_wire(old(self)@.frames),
    {
        if self.frames.len() == 0 {
            return Vec::new();
        }
        let ghost frames = self@.frames;
        let mut buf: Vec<u8> = Vec::with_capacity(self.bytes_used.saturating_add(4));
        let count = self.frames.len() as u32;
        push_u32(&mut buf, count);
        let mut i: usize = 0;
        while i < self.frames.len()
            invariant
                self@.frames == frames,
                i <= frames.len(),
                count == frames.len() as u32,
                buf@ == crate::wire::le32(count) + records(frames.take(i as int)),
            decreases frames.len() - i,
        {
            let frame = &self.frames[i];
            push_u32(&mut buf, frame.len() as u32);
            append_bytes(&mut buf, frame.as_slice());
            proof {
                assert(frames.take(i + 1).drop_last() =~= frames.take(i as int));
                assert(frames.take(i + 1).last() == frame@);
                assert(records(frames.take(i + 1)) =~= records(frames.take(i as int)) + frame_record(frame@));
            }
            i = i + 1;
        }
        assert(frames.take(frames.len() as int) =~= frames);
        self.frames.clear();
        self.bytes_used = 0;
        assert(self@.frames =~= Seq::<Seq<u8>>::empty());
        buf
    }

    /// Read one frame from the front of the buffer (FIFO). Returns `None` if
    /// the buffer is empty.
    pub fn try_pop(&mut self) -> (r: Option<Vec<u8>>)
        requires
            old(self).wf(),
        ensures
            final(self).wf(),
            final(self)@.capacity == old(self)@.capacity,
            old(self)@.frames.len() == 0 ==> r is None && final(self)@.frames == old(self)@.frames,
            old(self)@.frames.len() > 0 ==> {
                &&& r matches Some(f) && f@ == old(self)@.frames[0]
                &&& final(self)@.frames == old(self)@.frames.drop_first()
            },
    {
        let ghost before = self@.frames;
        match self.frames.pop_front() {
            Some(frame) => {
                proof {
                    lemma_total_cost_first(before);
                    lemma_total_cost_nonneg(before.drop_first());
                    assert(self@.frames =~= before.drop_first());
                }
                self.bytes_used = self.bytes_used - (FRAME_OVERHEAD + frame.len());
                Some(frame)
            },
            None => None,
        }
    }

    /// Number of frames currently buffered.
    pub fn frame_count(&self) -> (n: usize)
        requires
            self.wf(),
        ensures
            n == self@.frames.len(),
    {
        self.frames.len()
    }

    /// Number of bytes currently used (including per-frame length prefixes).
    pub fn bytes_used(&self) -> (n: usize)
        requires
            self.wf(),
        ensures
            n == total_cost(self@.frames),
    {
        self.bytes_used
    }

    /// Total byte capacity of the buffer.
    pub fn capacity(&self) -> (n: usize)
        ensures
            n == self@.capacity,
    {
        self.capacity
    }

    /// Clear all buffered frames.
    pub fn clear(&mut self)
        requires
            old(self).wf(),
        ensures
            final(self).wf(),
            final(self)@.capacity == old(self)@.capacity,
            final(self)@.frames == Seq::<Seq<u8>>::empty(),
    {
        self.frames.clear();
        self.bytes_used = 0;
        assert(self@.frames =~= Seq::<Seq<u8>>::empty());
    }
}

/// A lossy push evicts exactly as many of the oldest frames as it must: once
/// they are gone the rest and the new frame fit, and evicting fewer would not
/// have made room.
pub proof fn lemma_evictions_minimal(frames: Seq<Seq<u8>>, cost: int, cap: int)
    requires
        0 <= cost <= cap,
    ensures
        evictions(frames, cost, cap) <= frames.len(),
        total_cost(frames.skip(evictions(frames, cost, cap) as int)) + cost <= cap,
        forall|j: int|
            0 <= j < evictions(frames, cost, cap) ==> total_cost(#[trigger] frames.skip(j)) + cost
                > cap,
    decreases frames.len(),
{
    let n = evictions(frames, cost, cap);
    if frames.len() == 0 {
        assert(frames.skip(0) =~= frames);
    } else if total_cost(frames) + cost <= cap {
        assert(frames.skip(0) =~= frames);
    } else {
        let rest = frames.drop_first();
        lemma_evictions_minimal(rest, cost, cap);
        assert(frames.skip(n as int) =~= rest.skip(n - 1));
        assert forall|j: int| 0 <= j < n implies total_cost(#[trigger] frames.skip(j)) + cost > cap by {
            if j == 0 {
                assert(frames.skip(0) =~= frames);
            } else {
                assert(frames.skip(j) =~= rest.skip(j - 1));
            }
        }
    }
}

/// A ring buffer never holds more bytes than its capacity.
pub proof fn lemma_ring_within_capacity(rb: &RingBuffer)
    requires
        rb.wf(),
    ensures
        total_cost(rb@.frames) <= rb@.capacity,
        rb@.capacity >= FRAME_OVERHEAD,
{
}

/// What a ring buffer of at most `u32::MAX` bytes drains reads back as
/// exactly the frames it held.
pub proof fn lemma_ring_drain_readable(rb: &RingBuffer)
    requires
        rb.wf(),
        rb@.capacity <= u32::MAX,
    ensures
        parse_drain(drain_wire(rb@.frames)) == Some(rb@.frames),
{
    let frames = rb@.frames;
    lemma_total_cost_nonneg(frames);
    assert forall|i: int| 0 <= i < frames.len() implies #[trigger] frames[i].len() <= u32::MAX by {
        lemma_frame_cost_bounded(frames, i);
    }
    lemma_drain_roundtrip(frames);
}

/// No single frame costs more than all the frames together.
proof fn lemma_frame_cost_bounded(frames: Seq<Seq<u8>>, i: int)
    requires
        0 <= i < frames.len(),
    ensures
        frame_cost(frames[i]) <= total_cost(frames),
    decreases frames.len(),
{
    lemma_total_cost_nonneg(frames.drop_last());
    if i < frames.len() - 1 {
        lemma_frame_cost_bounded(frames.drop_last(), i);
    }
}

/// A copy of the bytes of `frame`.
fn slice_to_vec_u8(frame: &[u8]) -> (v: Vec<u8>)
    ensures
        v@ == frame@,
{
    vstd::slice::slice_to_vec(frame)
}

} // verus!
