//! The accounting of buffered frames and the drain wire format shared by the
//! lossy ring buffer and the reliable queue:
//!
//! ```text
//! [u32 LE frame_count]
//! [u32 LE len_1][bytes_1]
//! [u32 LE len_2][bytes_2]
//! ...
//! ```
//!
//! An empty buffer drains to no bytes at all.

use vstd::prelude::*;

use crate::wire::{le32, le32_value, lemma_le32_roundtrip};

verus! {

/// What one buffered frame counts against a byte budget: its payload plus
/// the 4-byte length prefix.
pub open spec fn frame_cost(f: Seq<u8>) -> int {
    4 + f.len() as int
}

/// What a sequence of buffered frames counts against a byte budget.
pub open spec fn total_cost(frames: Seq<Seq<u8>>) -> int
    decreases frames.len(),
{
    if frames.len() == 0 {
        0
    } else {
        total_cost(frames.drop_last()) + frame_cost(frames.last())
    }
}

/// One frame in the drain format: its length as a u32 LE, then its bytes.
pub open spec fn frame_record(f: Seq<u8>) -> Seq<u8> {
    le32(f.len() as u32) + f
}

/// The records of a sequence of frames, one after the other.
pub open spec fn records(frames: Seq<Seq<u8>>) -> Seq<u8>
    decreases frames.len(),
{
    if frames.len() == 0 {
        Seq::empty()
    } else {
        records(frames.drop_last()) + frame_record(frames.last())
    }
}

/// The bytes that draining a buffer holding `frames` returns.
pub open spec fn drain_wire(frames: Seq<Seq<u8>>) -> Seq<u8> {
    if frames.len() == 0 {
        Seq::empty()
    } else {
        le32(frames.len() as u32) + records(frames)
    }
}

/// Every frame's length fits in the u32 length prefix.
pub open spec fn lengths_fit_u32(frames: Seq<Seq<u8>>) -> bool {
    forall|i: int| 0 <= i < frames.len() ==> #[trigger] frames[i].len() <= u32::MAX
}

/// The cost of a sequence of frames is that of its first frame plus that of
/// the rest.
pub proof fn lemma_total_cost_first(frames: Seq<Seq<u8>>)
    requires
        frames.len() > 0,
    ensures
        total_cost(frames) == frame_cost(frames[0]) + total_cost(frames.drop_first()),
    decreases frames.len(),
{
    if frames.len() > 1 {
        lemma_total_cost_first(frames.drop_last());
        assert(frames.drop_last().drop_first() =~= frames.drop_first().drop_last());
    } else {
        assert(frames.drop_last() =~= Seq::<Seq<u8>>::empty());
        assert(frames.drop_first() =~= Seq::<Seq<u8>>::empty());
    }
}

/// No sequence of frames costs less than nothing.
pub proof fn lemma_total_cost_nonneg(frames: Seq<Seq<u8>>)
    ensures
        total_cost(frames) >= 4 * frames.len(),
    decreases frames.len(),
{
    if frames.len() > 0 {
        lemma_total_cost_nonneg(frames.drop_last());
    }
}

/// The records of a sequence of frames are the first frame's record followed
/// by the records of the rest.
pub proof fn lemma_records_first(frames: Seq<Seq<u8>>)
    requires
        frames.len() > 0,
    ensures
        records(frames) == frame_record(frames[0]) + records(frames.drop_first()),
    decreases frames.len(),
{
    if frames.len() > 1 {
        lemma_records_first(frames.drop_last());
        assert(frames.drop_last().drop_first() =~= frames.drop_first().drop_last());
        assert(records(frames) =~= frame_record(frames[0]) + records(frames.drop_first()));
    } else {
        assert(frames.drop_last() =~= Seq::<Seq<u8>>::empty());
        assert(frames.drop_first() =~= Seq::<Seq<u8>>::empty());
        assert(records(frames) =~= frame_record(frames[0]) + records(frames.drop_first()));
    }
}

/// The records of frames whose lengths fit a u32 take exactly their cost in bytes.
pub proof fn lemma_records_len(frames: Seq<Seq<u8>>)
    ensures
        records(frames).len() == total_cost(frames),
    decreases frames.len(),
{
    if frames.len() > 0 {
        lemma_records_len(frames.drop_last());
    }
}

/// Reading the records of `count` frames one after the other, starting at
/// `start`: the frames, or none when the bytes run out.
pub open spec fn parse_records(data: Seq<u8>, start: int, count: nat) -> Option<(Seq<Seq<u8>>, int)>
    decreases count,
{
    if count == 0 {
        Some((Seq::empty(), start))
    } else {
        match parse_records(data, start, (count - 1) as nat) {
            Some((frames, end)) => if end + 4 <= data.len() && end + 4 + le32_value(
                data.subrange(end, end + 4),
            ) <= data.len() {
                let len = le32_value(data.subrange(end, end + 4));
                Some((frames.push(data.subrange(end + 4, end + 4 + len)), end + 4 + len))
            } else {
                None
            },
            None => None,
        }
    }
}

/// Reading a drained blob: no bytes are no frames; otherwise the frame count,
/// then that many records, which must use up the blob.
pub open spec fn parse_drain(blob: Seq<u8>) -> Option<Seq<Seq<u8>>> {
    if blob.len() == 0 {
        Some(Seq::empty())
    } else if blob.len() < 4 {
        None
    } else {
        match parse_records(blob, 4, le32_value(blob.take(4)) as nat) {
            Some((frames, end)) => if end == blob.len() {
                Some(frames)
            } else {
                None
            },
            None => None,
        }
    }
}

/// Reading back `k` records of a record sequence gives the first `k` frames.
proof fn lemma_parse_records_prefix(frames: Seq<Seq<u8>>, prefix: Seq<u8>, k: nat)
    requires
        k <= frames.len(),
        lengths_fit_u32(frames),
    ensures
        parse_records(prefix + records(frames), prefix.len() as int, k) == Some(
            (frames.take(k as int), prefix.len() + records(frames.take(k as int)).len() as int),
        ),
    decreases k,
{
    let data = prefix + records(frames);
    if k == 0 {
        assert(frames.take(0) =~= Seq::<Seq<u8>>::empty());
    } else {
        let i = k - 1;
        lemma_parse_records_prefix(frames, prefix, (k - 1) as nat);
        let end = prefix.len() + records(frames.take(i)).len() as int;
        let f = frames[i];
        lemma_records_split(frames, i);
        lemma_le32_roundtrip(f.len() as u32);
        assert(data.subrange(end, end + 4) =~= le32(f.len() as u32));
        assert(data.subrange(end + 4, end + 4 + f.len() as int) =~= f);
        assert(frames.take(k as int).drop_last() =~= frames.take(i));
        assert(frames.take(i).push(f) =~= frames.take(k as int));
    }
}

/// The records of `frames` are those of the first `i` frames, then the record
/// of frame `i`, then the records of the rest.
proof fn lemma_records_split(frames: Seq<Seq<u8>>, i: int)
    requires
        0 <= i < frames.len(),
    ensures
        records(frames) == records(frames.take(i)) + frame_record(frames[i]) + records(
            frames.skip(i + 1),
        ),
{
    lemma_records_append(frames.take(i), frames.skip(i));
    assert(frames.take(i) + frames.skip(i) =~= frames);
    lemma_records_first(frames.skip(i));
    assert(frames.skip(i).drop_first() =~= frames.skip(i + 1));
    assert(records(frames) =~= records(frames.take(i)) + frame_record(frames[i]) + records(
        frames.skip(i + 1),
    ));
}

/// The records of a concatenation are the concatenated records.
pub proof fn lemma_records_append(a: Seq<Seq<u8>>, b: Seq<Seq<u8>>)
    ensures
        records(a + b) == records(a) + records(b),
    decreases b.len(),
{
    if b.len() == 0 {
        assert(a + b =~= a);
        assert(records(a) + records(b) =~= records(a));
    } else {
        lemma_records_append(a, b.drop_last());
        assert((a + b).drop_last() =~= a + b.drop_last());
        assert(records(a) + records(b) =~= records(a) + records(b.drop_last()) + frame_record(
            b.last(),
        ));
    }
}

/// A drained blob reads back as exactly the frames that were buffered, when
/// the frame count and every frame length fit their u32 prefixes.
pub proof fn lemma_drain_roundtrip(frames: Seq<Seq<u8>>)
    requires
        frames.len() <= u32::MAX,
        lengths_fit_u32(frames),
    ensures
        parse_drain(drain_wire(frames)) == Some(frames),
{
    if frames.len() > 0 {
        let blob = drain_wire(frames);
        let n = frames.len();
        lemma_le32_roundtrip(n as u32);
        assert(blob.take(4) =~= le32(n as u32));
        lemma_parse_records_prefix(frames, le32(n as u32), n as nat);
        assert(frames.take(n as int) =~= frames);
    }
}

} // verus!
