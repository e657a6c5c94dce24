//! Unified channel buffer over the lossy and the reliable strategy.
//!
//! [`ChannelBuffer`] is either a [`RingBuffer`] (lossy) or a [`Queue`]
//! (guaranteed delivery), behind one API so that all channels can be treated
//! alike.

use vstd::prelude::*;

use crate::drain::{drain_wire, frame_cost, total_cost};
use crate::error::Error;
use crate::queue::{queue_push, Queue};
use crate::ringbuf::{lossy_push, PushOutcome, RingBuffer};

verus! {

/// A channel buffer that is either lossy ([`RingBuffer`]) or reliable
/// ([`Queue`]).
pub enum ChannelBuffer {
    /// Lossy mode: the oldest frames are dropped when the byte budget is
    /// exceeded.
    Lossy(RingBuffer),
    /// Reliable mode: pushes are rejected with [`Error::ChannelFull`] when
    /// the byte budget would be exceeded.
    Reliable(Queue),
}

/// Two channel buffers of the same kind and the same byte budget.
pub open spec fn same_channel(a: ChannelBuffer, b: ChannelBuffer) -> bool {
    match (a, b) {
        (ChannelBuffer::Lossy(x), ChannelBuffer::Lossy(y)) => x@.capacity == y@.capacity,
        (ChannelBuffer::Reliable(x), ChannelBuffer::Reliable(y)) => x@.max_bytes == y@.max_bytes,
        _ => false,
    }
}

impl ChannelBuffer {
    /// The invariant of the underlying buffer.
    pub open spec fn wf(&self) -> bool {
        match *self {
            ChannelBuffer::Lossy(rb) => rb.wf(),
            ChannelBuffer::Reliable(q) => q.wf(),
        }
    }

    /// The buffered frames, oldest first.
    pub open spec fn frames(&self) -> Seq<Seq<u8>> {
        match *self {
            ChannelBuffer::Lossy(rb) => rb@.frames,
            ChannelBuffer::Reliable(q) => q@.frames,
        }
    }

    /// Push a frame into the channel.
    ///
    /// A lossy channel returns `Ok` with the number of older frames evicted
    /// (`0` when the frame was too large and discarded). A reliable channel
    /// returns `Ok(0)`, or the error with which the queue refused the frame.
    pub fn push(&mut self, frame: &[u8]) -> (r: Result<usize, Error>)
        requires
            old(self).wf(),
        ensures
            final(self).wf(),
            same_channel(*old(self), *final(self)),
            match (*old(self), *final(self)) {
                (ChannelBuffer::Lossy(a), ChannelBuffer::Lossy(b)) => {
                    let (s, n) = lossy_push(a@, frame@);
                    &&& b@ == s
                    &&& r matches Ok(dropped) && dropped == n
                },
                (ChannelBuffer::Reliable(a), ChannelBuffer::Reliable(b)) => {
                    let (s, res) = queue_push(a@, frame@);
                    &&& b@ == s
                    &&& match res {
                        Ok(()) => r == Ok::<usize, Error>(0),
                        Err(e) => r == Err::<usize, Error>(e),
                    }
                },
                _ => false,
            },
    {
        match self {
            ChannelBuffer::Lossy(rb) => Ok(rb.push(frame)),
            ChannelBuffer::Reliable(q) => match q.push(frame) {
                Ok(()) => Ok(0),
                Err(e) => Err(e),
            },
        }
    }

    /// Push a frame with a richer outcome report.
    ///
    /// A lossy channel reports [`PushOutcome::TooLarge`] for a frame that can
    /// never fit and [`PushOutcome::Accepted`] with the eviction count
    /// otherwise; a reliable channel reports `Accepted(0)` or the queue's
    /// error.
    pub fn push_checked(&mut self, frame: &[u8]) -> (r: Result<PushOutcome, Error>)
        requires
            old(self).wf(),
        ensures
            final(self).wf(),
            same_channel(*old(self), *final(self)),
            match (*old(self), *final(self)) {
                (ChannelBuffer::Lossy(a), ChannelBuffer::Lossy(b)) => {
                    let (s, n) = lossy_push(a@, frame@);
                    &&& b@ == s
                    &&& frame_cost(frame@) > a@.capacity ==> r == Ok::<PushOutcome, Error>(
                        PushOutcome::TooLarge,
                    )
                    &&& frame_cost(frame@) <= a@.capacity ==> r == Ok::<PushOutcome, Error>(
                        PushOutcome::Accepted(n as usize),
                    )
                },
                (ChannelBuffer::Reliable(a), ChannelBuffer::Reliable(b)) => {
                    let (s, res) = queue_push(a@, frame@);
                    &&& b@ == s
                    &&& match res {
                        Ok(()) => r == Ok::<PushOutcome, Error>(PushOutcome::Accepted(0)),
                        Err(e) => r == Err::<PushOutcome, Error>(e),
                    }
                },
                _ => false,
            },
    {
        match self {
            ChannelBuffer::Lossy(rb) => Ok(rb.push_checked(frame)),
            ChannelBuffer::Reliable(q) => match q.push(frame) {
                Ok(()) => Ok(PushOutcome::Accepted(0)),
                Err(e) => Err(e),
            },
        }
    }

    /// Drain all buffered frames into a single binary blob and clear the
    /// buffer. The wire format is the same for both kinds.
    pub fn drain_all(&mut self) -> (blob: Vec<u8>)
        requires
            old(self).wf(),
        ensures
            final(self).wf(),
            same_channel(*old(self), *final(self)),
            final(self).frames() == Seq::<Seq<u8>>::empty(),
            blob@ == drain_wire(old(self).frames()),
    {
        match self {
            ChannelBuffer::Lossy(rb) => rb.drain_all(),
            ChannelBuffer::Reliable(q) => q.drain_all(),
        }
    }

    /// Read one frame from the front of the buffer (FIFO). Returns `None` if
    /// the buffer is empty.
    pub fn try_pop(&mut self) -> (r: Option<Vec<u8>>)
        requires
            old(self).wf(),
        ensures
            final(self).wf(),
            same_channel(*old(self), *final(self)),
            old(self).frames().len() == 0 ==> r is None && final(self).frames() == old(
                self,
            ).frames(),
            old(self).frames().len() > 0 ==> {
                &&& r matches Some(f) && f@ == old(self).frames()[0]
                &&& final(self).frames() == old(self).frames().drop_first()
            },
    {
        match self {
            ChannelBuffer::Lossy(rb) => rb.try_pop(),
            ChannelBuffer::Reliable(q) => q.try_pop(),
        }
    }

    /// Number of frames currently buffered.
    pub fn frame_count(&self) -> (n: usize)
        requires
            self.wf(),
        ensures
            n == self.frames().len(),
    {
        match self {
            ChannelBuffer::Lossy(rb) => rb.frame_count(),
            ChannelBuffer::Reliable(q) => q.frame_count(),
        }
    }

    /// Number of bytes currently used (including per-frame length prefixes).
    pub fn bytes_used(&self) -> (n: usize)
        requires
            self.wf(),
        ensures
            n == total_cost(self.frames()),
    {
        match self {
            ChannelBuffer::Lossy(rb) => rb.bytes_used(),
            ChannelBuffer::Reliable(q) => q.bytes_used(),
        }
    }

    /// Clear all buffered frames.
    pub fn clear(&mut self)
        requires
            old(self).wf(),
        ensures
            final(self).wf(),
            same_channel(*old(self), *final(self)),
            final(self).frames() == Seq::<Seq<u8>>::empty(),
    {
        match self {
            ChannelBuffer::Lossy(rb) => rb.clear(),
            ChannelBuffer::Reliable(q) => q.clear(),
        }
    }

    /// Returns `true` if this channel uses reliable (guaranteed-delivery)
    /// buffering.
    pub fn is_ordered(&self) -> (r: bool)
        ensures
            r == (*self is Reliable),
    {
        match self {
            ChannelBuffer::Lossy(_) => false,
            ChannelBuffer::Reliable(_) => true,
        }
    }
}

/// Both kinds of channel drain the same frames to the same bytes.
pub proof fn lemma_drain_format_identical(lossy: &ChannelBuffer, reliable: &ChannelBuffer)
    requires
        *lossy is Lossy,
        *reliable is Reliable,
        lossy.frames() == reliable.frames(),
    ensures
        drain_wire(lossy.frames()) == drain_wire(reliable.frames()),
{
}

} // verus!
