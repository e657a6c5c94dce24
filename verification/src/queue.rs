//! Bounded frame queue with guaranteed delivery.
//!
//! [`Queue`] is the counterpart of [`crate::ringbuf::RingBuffer`]: instead of
//! dropping the oldest frames when the byte budget would be exceeded, it
//! rejects the new frame with [`Error::ChannelFull`]. Frames are kept
//! pre-formatted in the drain wire layout, so draining copies one block.

use vstd::prelude::*;
use vstd::slice::{slice_subrange, slice_to_vec};

use crate::codec::DRAIN_FRAME_OVERHEAD;
use crate::drain::{
    drain_wire, frame_cost, frame_record, lemma_drain_roundtrip, lemma_records_first,
    lemma_records_len, lemma_total_cost_first, lemma_total_cost_nonneg, lengths_fit_u32,
    parse_drain, records, total_cost,
};
use crate::error::Error;
use crate::wire::{append_bytes, le32, lemma_le32_roundtrip, push_u32, read_u32};

verus! {

/// The abstract state of a queue: its frames, oldest first, and its byte
/// limit (`0` means unbounded).
#[verifier::ext_equal]
pub struct QueueState {
    pub frames: Seq<Seq<u8>>,
    pub max_bytes: nat,
}

/// A frame too large for the wire format: its length does not fit the u32
/// length prefix, or its cost does not fit a `usize`.
pub open spec fn oversized_frame(len: nat) -> bool {
    len > u32::MAX || len + DRAIN_FRAME_OVERHEAD > usize::MAX
}

/// A queue in state `q` has no room for frame `f`: the byte limit would be
/// exceeded, or the frame count has reached the u32 maximum.
pub open spec fn queue_full(q: QueueState, f: Seq<u8>) -> bool {
    ||| q.max_bytes > 0 && total_cost(q.frames) + frame_cost(f) > q.max_bytes
    ||| q.frames.len() == u32::MAX
}

/// A reliable push of `f` into a queue in state `q`: the state after it and
/// the push's result. An oversized frame is refused with
/// [`Error::PayloadTooLarge`], a frame that finds no room with
/// [`Error::ChannelFull`]; either leaves the queue as it was.
pub open spec fn queue_push(q: QueueState, f: Seq<u8>) -> (QueueState, Result<(), Error>) {
    if oversized_frame(f.len()) {
        (q, Err(Error::PayloadTooLarge(f.len() as usize)))
    } else if queue_full(q, f) {
        (q, Err(Error::ChannelFull))
    } else {
        (QueueState { frames: q.frames.push(f), max_bytes: q.max_bytes }, Ok(()))
    }
}

/// A bounded FIFO queue with backpressure.
///
/// This queue never drops frames. When the byte budget would be exceeded,
/// [`push`](Self::push) returns [`Error::ChannelFull`] and the frame is
/// rejected. A `max_bytes` of `0` means the queue is unbounded.
pub struct Queue {
    /// Pre-formatted wire data: `[u32 LE len][bytes]` per frame.
    wire_data: Vec<u8>,
    /// Number of frames currently stored.
    frame_count: u32,
    /// Start of live data in `wire_data` (frames before it have been popped).
    read_pos: usize,
    /// Total bytes used for capacity accounting.
    bytes_used: usize,
    /// Maximum byte budget; `0` means unbounded.
    max_bytes: usize,
    /// The frames that the live wire data holds.
    frames: Ghost<Seq<Seq<u8>>>,
}

impl View for Queue {
    type V = QueueState;

    closed spec fn view(&self) -> QueueState {
        QueueState { frames: self.frames@, max_bytes: self.max_bytes as nat }
    }
}

impl Queue {
    /// The queue's invariant: the live wire data is the records of the
    /// frames, the counters match them, every length fits its u32 prefix, and
    /// a bounded queue stays within its limit.
    pub closed spec fn wf(&self) -> bool {
        &&& self.frame_count == self.frames@.len()
        &&& self.read_pos <= self.wire_data@.len()
        &&& self.wire_data@.skip(self.read_pos as int) == records(self.frames@)
        &&& self.bytes_used == total_cost(self.frames@)
        &&& lengths_fit_u32(self.frames@)
        &&& self.max_bytes > 0 ==> total_cost(self.frames@) <= self.max_bytes
    }

    /// Create a queue with the given byte limit; `0` means unbounded, so that
    /// pushes never fail for lack of room (and memory use has no bound).
    pub fn new(max_bytes: usize) -> (q: Self)
        ensures
            q.wf(),
            q@.frames == Seq::<Seq<u8>>::empty(),
            q@.max_bytes == max_bytes,
    {
        let q = Queue {
            wire_data: Vec::new(),
            frame_count: 0,
            read_pos: 0,
            bytes_used: 0,
            max_bytes,
            frames: Ghost(Seq::empty()),
        };
        assert(q.wire_data@.skip(0) =~= records(Seq::<Seq<u8>>::empty()));
        q
    }

    /// Create an unbounded queue; equivalent to `Queue::new(0)`.
    pub fn unbounded() -> (q: Self)
        ensures
            q.wf(),
            q@.frames == Seq::<Seq<u8>>::empty(),
            q@.max_bytes == 0,
    {
        Self::new(0)
    }

    /// Push a frame into the queue.
    ///
    /// Fails with [`Error::PayloadTooLarge`] when the frame's length does not
    /// fit the u32 prefix, and with [`Error::ChannelFull`] when the byte
    /// limit would be exceeded or the frame count is at the u32 maximum. A
    /// rejected push leaves the queue unchanged.
    pub fn push(&mut self, frame: &[u8]) -> (r: Result<(), Error>)
        requires
            old(self).wf(),
        ensures
            final(self).wf(),
            final(self)@.max_bytes == old(self)@.max_bytes,
            match r {
                Ok(()) => {
                    &&& !oversized_frame(frame@.len())
                    &&& !queue_full(old(self)@, frame@)
                    &&& final(self)@.frames == old(self)@.frames.push(frame@)
                },
                Err(Error::PayloadTooLarge(n)) => {
                    &&& n == frame@.len()
                    &&& oversized_frame(frame@.len())
                    &&& final(self)@.frames == old(self)@.frames
                },
                Err(Error::ChannelFull) => {
                    &&& !oversized_frame(frame@.len())
                    &&& queue_full(old(self)@, frame@)
                    &&& final(self)@.frames == old(self)@.frames
                },
                Err(_) => false,
            },
            (final(self)@, r) == queue_push(old(self)@, frame@),
    {
        // The frame length must fit the u32 prefix and its cost a usize.
        if frame.len() > u32::MAX as usize || DRAIN_FRAME_OVERHEAD.checked_add(frame.len()).is_none() {
            return Err(Error::PayloadTooLarge(frame.len()));
        }
        let cost = DRAIN_FRAME_OVERHEAD + frame.len();
        if self.max_bytes > 0 && cost > self.max_bytes - self.bytes_used {
            return Err(Error::ChannelFull);
        }
        // The frame count must fit the u32 count header.
        if self.frame_count == u32::MAX {
            return Err(Error::ChannelFull);
        }
        let ghost live = self.wire_data@.skip(self.read_pos as int);
        let ghost before = self.wire_data@;
        push_u32(&mut self.wire_data, frame.len() as u32);
        append_bytes(&mut self.wire_data, frame);
        self.frame_count = self.frame_count + 1;
        let ghost new_frames = self.frames@.push(frame@);
        proof {
            assert(new_frames.drop_last() =~= self.frames@);
            assert(self.wire_data@.skip(self.read_pos as int) =~= live + frame_record(frame@));
            lemma_records_len(new_frames);
        }
        self.frames = Ghost(new_frames);
        let total = self.wire_data.len();
        assert(total - self.read_pos == self.bytes_used + cost);
        self.bytes_used = self.bytes_used.saturating_add(cost);
        Ok(())
    }

    /// Read one frame from the front of the queue (FIFO). Returns `None` if
    /// the queue is empty.
    pub fn try_pop(&mut self) -> (r: Option<Vec<u8>>)
        requires
            old(self).wf(),
        ensures
            final(self).wf(),
            final(self)@.max_bytes == old(self)@.max_bytes,
            old(self)@.frames.len() == 0 ==> r is None && final(self)@.frames == old(self)@.frames,
            old(self)@.frames.len() > 0 ==> {
                &&& r matches Some(f) && f@ == old(self)@.frames[0]
                &&& final(self)@.frames == old(self)@.frames.drop_first()
            },
    {
        if self.frame_count == 0 {
            return None;
        }
        let ghost frames = self.frames@;
        let ghost first = frames[0];
        let rp = self.read_pos;
        let wlen = self.wire_data.len();
        proof {
            lemma_records_first(frames);
            lemma_records_len(frames.drop_first());
            lemma_total_cost_first(frames);
            lemma_total_cost_nonneg(frames.drop_first());
            lemma_le32_roundtrip(first.len() as u32);
            let live = self.wire_data@.skip(rp as int);
            assert(live == frame_record(first) + records(frames.drop_first()));
            assert(live.len() >= 4 + first.len());
            assert(rp + 4 + first.len() <= wlen);
            assert(self.wire_data@.subrange(rp as int, rp + 4) =~= live.subrange(0, 4));
            assert(live.subrange(0, 4) =~= le32(first.len() as u32));
            assert(self.wire_data@.subrange(rp + 4, rp + 4 + first.len()) =~= live.subrange(4, 4 + first.len() as int));
            assert(live.subrange(4, 4 + first.len() as int) =~= first);
        }
        let payload_len = read_u32(self.wire_data.as_slice(), rp) as usize;
        let payload_start = rp + 4;
        let frame = slice_to_vec(
            slice_subrange(self.wire_data.as_slice(), payload_start, payload_start + payload_len),
        );
        let cost = DRAIN_FRAME_OVERHEAD + payload_len;
        self.read_pos = rp + cost;
        self.frame_count = self.frame_count - 1;
        self.bytes_used = self.bytes_used - cost;
        self.frames = Ghost(frames.drop_first());
        proof {
            let live = self.wire_data@.skip(rp as int);
            assert(payload_len == first.len());
            assert(live.skip(cost as int) =~= records(frames.drop_first()));
            assert(self.wire_data@.skip(self.read_pos as int) =~= live.skip(cost as int));
        }

        // Compact: when empty, reset; otherwise shift the live data to the
        // front once the read position passes half of the buffer.
        if self.frame_count == 0 {
            self.wire_data.clear();
            self.read_pos = 0;
            assert(self.wire_data@.skip(0) =~= records(self.frames@));
        } else if self.read_pos > self.wire_data.len() / 2 {
            self.compact();
        }
        Some(frame)
    }

    /// Moves the live wire data to the front of the buffer.
    fn compact(&mut self)
        requires
            old(self).wf(),
        ensures
            final(self).wf(),
            final(self)@ == old(self)@,
            final(self).read_pos == 0,
    {
        let rp = self.read_pos;
        let len = self.wire_data.len();
        let ghost live = self.wire_data@.skip(rp as int);
        let mut i: usize = 0;
        while i < len - rp
            invariant
                rp <= len,
                rp == old(self).read_pos,
                self.wire_data@.len() == len,
                old(self).wire_data@.len() == len,
                self.frames == old(self).frames,
                self.max_bytes == old(self).max_bytes,
                self.frame_count == old(self).frame_count,
                self.bytes_used == old(self).bytes_used,
                live == old(self).wire_data@.skip(rp as int),
                i <= len - rp,
                forall|j: int| 0 <= j < i ==> self.wire_data@[j] == live[j],
                forall|j: int| i <= j < len ==> self.wire_data@[j] == old(self).wire_data@[j],
            decreases len - rp - i,
        {
            let b = self.wire_data[rp + i];
            assert(b == old(self).wire_data@[rp + i]);
            assert(old(self).wire_data@.skip(rp as int)[i as int] == old(self).wire_data@[rp + i]);
            assert(b == live[i as int]);
            let ghost prev = self.wire_data@;
            self.wire_data.set(i, b);
            assert(forall|j: int| 0 <= j < len && j != i ==> self.wire_data@[j] == prev[j]);
            i = i + 1;
        }
        self.wire_data.truncate(len - rp);
        self.read_pos = 0;
        assert(self.wire_data@.skip(0) =~= live);
    }

    /// Drain all queued frames into a single binary blob in the drain wire
    /// format and clear the queue. An empty queue drains to an empty blob.
    pub fn drain_all(&mut self) -> (blob: Vec<u8>)
        requires
            old(self).wf(),
        ensures
            final(self).wf(),
            final(self)@.max_bytes == old(self)@.max_bytes,
            final(self)@.frames == Seq::<Seq<u8>>::empty(),
            blob@ == drain_wire(old(self)@.frames),
    {
        if self.frame_count == 0 {
            return Vec::new();
        }
        let mut wire_data: Vec<u8> = Vec::new();
        std::mem::swap(&mut wire_data, &mut self.wire_data);
        let read_pos = self.read_pos;
        let frame_count = self.frame_count;
        let ghost frames = self.frames@;
        self.read_pos = 0;
        self.frame_count = 0;
        self.bytes_used = 0;
        self.frames = Ghost(Seq::empty());
        assert(self.wire_data@.skip(0) =~= records(Seq::<Seq<u8>>::empty()));

        let live = slice_subrange(wire_data.as_slice(), read_pos, wire_data.len());
        assert(live@ =~= records(frames));
        let mut buf: Vec<u8> = Vec::with_capacity(live.len().saturating_add(4));
        push_u32(&mut buf, frame_count);
        append_bytes(&mut buf, live);
        buf
    }

    /// Number of frames currently queued.
    pub fn frame_count(&self) -> (n: usize)
        requires
            self.wf(),
        ensures
            n == self@.frames.len(),
    {
        self.frame_count as usize
    }

    /// Number of bytes currently used (including per-frame length prefixes).
    pub fn bytes_used(&self) -> (n: usize)
        requires
            self.wf(),
        ensures
            n == total_cost(self@.frames),
    {
        self.bytes_used
    }

    /// Maximum byte budget (`0` means unbounded).
    pub fn max_bytes(&self) -> (n: usize)
        ensures
            n == self@.max_bytes,
    {
        self.max_bytes
    }

    /// Clear all queued frames.
    pub fn clear(&mut self)
        requires
            old(self).wf(),
        ensures
            final(self).wf(),
            final(self)@.max_bytes == old(self)@.max_bytes,
            final(self)@.frames == Seq::<Seq<u8>>::empty(),
    {
        self.wire_data.clear();
        self.frame_count = 0;
        self.read_pos = 0;
        self.bytes_used = 0;
        self.frames = Ghost(Seq::empty());
        assert(self.wire_data@.skip(0) =~= records(Seq::<Seq<u8>>::empty()));
    }
}

/// A queue keeps its promises between calls: a bounded queue holds no more
/// than its limit, every frame length fits the u32 prefix, and the frame
/// count fits the u32 count header.
pub proof fn lemma_queue_bounds(q: &Queue)
    requires
        q.wf(),
    ensures
        q@.max_bytes > 0 ==> total_cost(q@.frames) <= q@.max_bytes,
        lengths_fit_u32(q@.frames),
        q@.frames.len() <= u32::MAX,
{
}

/// What a queue drains reads back as exactly the frames it held, in order.
pub proof fn lemma_queue_drain_readable(q: &Queue)
    requires
        q.wf(),
    ensures
        parse_drain(drain_wire(q@.frames)) == Some(q@.frames),
{
    lemma_drain_roundtrip(q@.frames);
}

/// An unbounded queue accepts every frame that fits the wire format, until
/// the frame count reaches the u32 maximum.
pub proof fn lemma_unbounded_accepts(q: QueueState, f: Seq<u8>)
    requires
        q.max_bytes == 0,
        !oversized_frame(f.len()),
        q.frames.len() < u32::MAX,
    ensures
        queue_push(q, f).1 is Ok,
        queue_push(q, f).0.frames == q.frames.push(f),
{
}

/// A queue never loses a frame: a refused push leaves it as it was, an
/// accepted one appends the frame after all the others.
pub proof fn lemma_queue_never_drops(q: QueueState, f: Seq<u8>)
    ensures
        queue_push(q, f).1 is Err ==> queue_push(q, f).0 == q,
        queue_push(q, f).1 is Ok ==> queue_push(q, f).0.frames == q.frames.push(f)
            && queue_push(q, f).0.max_bytes == q.max_bytes,
{
}

} // verus!
