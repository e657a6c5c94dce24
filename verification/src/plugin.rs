//! Configuration of the conduit plugin: the bootstrap reply that tells the
//! frontend how to reach the `conduit://` protocol, and the registry of
//! named channels that the builder collects.

use vstd::prelude::*;
use vstd::string::StringSliceAdditionalSpecFns;
use vstd::utf8::encode_utf8;

use crate::channel::ChannelBuffer;
use crate::protocol::{is_valid_channel_name, valid_channel_name, DEFAULT_CHANNEL_CAPACITY};
use crate::queue::Queue;
use crate::ringbuf::{RingBuffer, FRAME_OVERHEAD};

verus! {

// ---------------------------------------------------------------------------
// Bootstrap reply
// ---------------------------------------------------------------------------

/// Connection info returned to the frontend during bootstrap.
#[derive(Clone)]
pub struct BootstrapInfo {
    /// Protocol version (currently `1`), so that the client can check
    /// compatibility.
    pub protocol_version: u8,
    /// Base URL of the custom protocol (`"conduit://localhost"`).
    pub protocol_base: String,
    /// Per-launch invoke key, hex-encoded, that authenticates protocol
    /// requests (sent back as the `X-Conduit-Key` header).
    pub invoke_key: String,
    /// Names of the available channels.
    pub channels: Vec<String>,
}

/// The base URL of the custom protocol.
pub open spec fn protocol_base_url() -> Seq<char> {
    "conduit://localhost"@
}

impl BootstrapInfo {
    /// The bootstrap reply for this launch: protocol version 1 at
    /// `conduit://localhost`, with the launch's invoke key and channels.
    pub fn for_launch(invoke_key: String, channels: Vec<String>) -> (info: BootstrapInfo)
        ensures
            info.protocol_version == 1,
            info.protocol_base@ == protocol_base_url(),
            info.invoke_key == invoke_key,
            info.channels == channels,
    {
        BootstrapInfo {
            protocol_version: crate::protocol::default_protocol_version(),
            protocol_base: "conduit://localhost".to_owned(),
            invoke_key,
            channels,
        }
    }
}

// ---------------------------------------------------------------------------
// Channel definitions
// ---------------------------------------------------------------------------

/// How a named channel buffers its frames.
#[derive(Clone, Copy, Debug, PartialEq, Eq, Structural)]
pub enum ChannelKind {
    /// A lossy ring buffer with this byte capacity.
    Lossy(usize),
    /// A reliable queue with this byte limit (`0` for unbounded).
    Reliable(usize),
}

/// Why a channel definition was refused.
#[derive(Clone, Copy, Debug, PartialEq, Eq, Structural)]
pub enum ChannelDefError {
    /// The name is empty or has a character outside `[a-zA-Z0-9_-]`.
    InvalidName,
    /// A channel with this name is already defined.
    DuplicateName,
}

/// The named channels of a plugin, in the order they were defined.
pub struct ChannelDefs {
    defs: Vec<(String, ChannelKind)>,
}

/// Whether `name` is the name of one of `defs`.
pub open spec fn name_defined(defs: Seq<(Seq<char>, ChannelKind)>, name: Seq<char>) -> bool {
    exists|i: int| 0 <= i < defs.len() && #[trigger] defs[i].0 == name
}

impl View for ChannelDefs {
    type V = Seq<(Seq<char>, ChannelKind)>;

    closed spec fn view(&self) -> Seq<(Seq<char>, ChannelKind)> {
        self.defs@.map_values(|d: (String, ChannelKind)| (d.0@, d.1))
    }
}

impl ChannelDefs {
    /// Every name is a valid channel name and no name occurs twice.
    pub open spec fn wf(&self) -> bool {
        &&& forall|i: int|
            0 <= i < self@.len() ==> valid_channel_name(encode_utf8(#[trigger] self@[i].0))
        &&& forall|i: int, j: int|
            0 <= i < j < self@.len() ==> #[trigger] self@[i].0 != #[trigger] self@[j].0
    }

    /// No channels.
    pub fn new() -> (defs: Self)
        ensures
            defs.wf(),
            defs@ == Seq::<(Seq<char>, ChannelKind)>::empty(),
    {
        let defs = ChannelDefs { defs: Vec::new() };
        assert(defs@ =~= Seq::<(Seq<char>, ChannelKind)>::empty());
        defs
    }

    /// The number of defined channels.
    pub fn len(&self) -> (n: usize)
        ensures
            n == self@.len(),
    {
        self.defs.len()
    }

    /// Whether a channel named `name` is defined.
    pub fn contains(&self, name: &str) -> (found: bool)
        ensures
            found == name_defined(self@, name@),
    {
        let wanted = name.to_owned();
        let mut i: usize = 0;
        while i < self.defs.len()
            invariant
                wanted@ == name@,
                i <= self.defs@.len(),
                forall|j: int| 0 <= j < i ==> #[trigger] self@[j].0 != name@,
            decreases self.defs@.len() - i,
        {
            if self.defs[i].0 == wanted {
                assert(self@[i as int].0 == name@);
                return true;
            }
            i = i + 1;
        }
        false
    }

    /// Define a channel. Refused, leaving the definitions unchanged, when
    /// the name is not a valid channel name, or else when it is already
    /// defined.
    pub fn define(&mut self, name: String, kind: ChannelKind) -> (r: Result<(), ChannelDefError>)
        requires
            old(self).wf(),
        ensures
            final(self).wf(),
            !valid_channel_name(encode_utf8(name@)) ==> r == Err::<(), _>(
                ChannelDefError::InvalidName,
            ) && final(self)@ == old(self)@,
            valid_channel_name(encode_utf8(name@)) && name_defined(old(self)@, name@) ==> r == Err::<
                (),
                _,
            >(ChannelDefError::DuplicateName) && final(self)@ == old(self)@,
            valid_channel_name(encode_utf8(name@)) && !name_defined(old(self)@, name@) ==> r == Ok::<
                (),
                ChannelDefError,
            >(()) && final(self)@ == old(self)@.push((name@, kind)),
    {
        if !is_valid_channel_name(name.as_str()) {
            return Err(ChannelDefError::InvalidName);
        }
        if self.contains(name.as_str()) {
            return Err(ChannelDefError::DuplicateName);
        }
        let ghost before = self@;
        self.defs.push((name, kind));
        proof {
            assert(self@ =~= before.push((name@, kind)));
            assert forall|i: int, j: int| 0 <= i < j < self@.len() implies #[trigger] self@[i].0
                != #[trigger] self@[j].0 by {
                if j == before.len() {
                    assert(before[i].0 == self@[i].0);
                }
            }
        }
        Ok(())
    }

    /// The names of the defined channels, in order.
    pub fn names(&self) -> (names: Vec<String>)
        ensures
            names@.len() == self@.len(),
            forall|i: int| 0 <= i < names@.len() ==> #[trigger] names@[i]@ == self@[i].0,
    {
        let mut names: Vec<String> = Vec::new();
        let mut i: usize = 0;
        while i < self.defs.len()
            invariant
                i <= self.defs@.len(),
                names@.len() == i,
                forall|j: int| 0 <= j < i ==> #[trigger] names@[j]@ == self@[j].0,
            decreases self.defs@.len() - i,
        {
            names.push(self.defs[i].0.clone());
            i = i + 1;
        }
        names
    }

    /// The definitions, in the order they were made.
    pub fn into_entries(self) -> (entries: Vec<(String, ChannelKind)>)
        ensures
            entries@.len() == self@.len(),
            forall|i: int|
                0 <= i < entries@.len() ==> (#[trigger] entries@[i]).0@ == self@[i].0
                    && entries@[i].1 == self@[i].1,
    {
        self.defs
    }
}

/// The kind of a channel defined without a capacity: lossy or reliable,
/// with the default capacity of 64 KB.
pub fn default_kind(ordered: bool) -> (kind: ChannelKind)
    ensures
        kind == (if ordered {
            ChannelKind::Reliable(DEFAULT_CHANNEL_CAPACITY)
        } else {
            ChannelKind::Lossy(DEFAULT_CHANNEL_CAPACITY)
        }),
{
    if ordered {
        ChannelKind::Reliable(DEFAULT_CHANNEL_CAPACITY)
    } else {
        ChannelKind::Lossy(DEFAULT_CHANNEL_CAPACITY)
    }
}

/// An empty channel buffer of the given kind.
pub fn open_channel(kind: ChannelKind) -> (ch: ChannelBuffer)
    requires
        kind matches ChannelKind::Lossy(capacity) ==> capacity >= FRAME_OVERHEAD,
    ensures
        ch.wf(),
        ch.frames() == Seq::<Seq<u8>>::empty(),
        match kind {
            ChannelKind::Lossy(capacity) => ch matches ChannelBuffer::Lossy(rb) && rb@.capacity
                == capacity,
            ChannelKind::Reliable(max_bytes) => ch matches ChannelBuffer::Reliable(q)
                && q@.max_bytes == max_bytes,
        },
{
    match kind {
        ChannelKind::Lossy(capacity) => ChannelBuffer::Lossy(RingBuffer::new(capacity)),
        ChannelKind::Reliable(max_bytes) => ChannelBuffer::Reliable(Queue::new(max_bytes)),
    }
}

/// The names of `names` taken as character sequences.
pub open spec fn name_views(names: Seq<String>) -> Seq<Seq<char>> {
    names.map_values(|s: String| s@)
}

/// Keep, in order, the requested channel names that are among the known
/// ones; unknown names are dropped without an error.
pub fn filter_known_channels(requested: Vec<String>, known: &Vec<String>) -> (valid: Vec<String>)
    ensures
        name_views(valid@) == name_views(requested@).filter(
            |x: Seq<char>| name_views(known@).contains(x),
        ),
{
    let ghost pred = |x: Seq<char>| name_views(known@).contains(x);
    let mut valid: Vec<String> = Vec::new();
    let mut i: usize = 0;
    while i < requested.len()
        invariant
            i <= requested@.len(),
            pred == (|x: Seq<char>| name_views(known@).contains(x)),
            name_views(valid@) == name_views(requested@.take(i as int)).filter(pred),
        decreases requested@.len() - i,
    {
        let mut found = false;
        let mut j: usize = 0;
        while j < known.len()
            invariant
                i < requested@.len(),
                j <= known@.len(),
                found == exists|k: int| 0 <= k < j && #[trigger] known@[k]@ == requested@[i as int]@,
            decreases known@.len() - j,
        {
            if known[j] == requested[i] {
                found = true;
            }
            j = j + 1;
        }
        let ghost prev = name_views(valid@);
        proof {
            let req = name_views(requested@.take(i + 1));
            assert(req.drop_last() =~= name_views(requested@.take(i as int)));
            assert(req.last() == requested@[i as int]@);
            if found {
                let k = choose|k: int| 0 <= k < j && #[trigger] known@[k]@ == requested@[i as int]@;
                assert(name_views(known@)[k] == requested@[i as int]@);
            } else {
                assert forall|k: int| 0 <= k < name_views(known@).len() implies name_views(known@)[k]
                    != requested@[i as int]@ by {
                    assert(name_views(known@)[k] == known@[k]@);
                }
            }
            assert(pred(req.last()) == found);
            reveal(Seq::filter);
            if found {
                assert(req.filter(pred) == prev.push(req.last()));
            } else {
                assert(req.filter(pred) == prev);
            }
        }
        if found {
            valid.push(requested[i].clone());
            proof {
                assert(name_views(valid@) =~= prev.push(requested@[i as int]@));
            }
        }
        i = i + 1;
    }
    assert(requested@.take(requested@.len() as int) =~= requested@);
    valid
}

} // verus!
