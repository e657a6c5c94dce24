//! Binary framing, wire codec and in-process frame buffers for the
//! `conduit://` transport, with the routing decisions of its custom
//! protocol handler.

pub mod std_specs;
pub mod wire;

pub mod codec;
pub mod error;
pub mod drain;
pub mod ringbuf;
pub mod queue;
pub mod channel;
pub mod protocol;
pub mod route;
pub mod plugin;

pub use vstd::view::DeepView;

pub use channel::ChannelBuffer;
pub use codec::{
    decode_payload, frame_pack, frame_unpack, Bytes, Decode, Encode, FrameHeader, MsgType,
    DRAIN_FRAME_OVERHEAD, FRAME_HEADER_SIZE, PROTOCOL_VERSION,
};
pub use error::Error;
pub use plugin::{BootstrapInfo, ChannelDefError, ChannelDefs, ChannelKind};
pub use queue::Queue;
pub use ringbuf::{PushOutcome, RingBuffer};
pub use route::Route;
