//! Binary frame format and wire encoding traits.
//!
//! Every message is framed with an 11-byte header followed by a
//! variable-length payload:
//!
//! | Offset | Size | Field         | Notes                                |
//! |--------|------|---------------|--------------------------------------|
//! | 0      | 1    | `version`     | Always [`PROTOCOL_VERSION`] (1)      |
//! | 1      | 1    | `reserved`    | 0 = protocol (reserved)              |
//! | 2      | 1    | `msg_type`    | See [`MsgType`]                      |
//! | 3      | 4    | `sequence`    | LE u32, monotonic counter            |
//! | 7      | 4    | `payload_len` | LE u32, byte length of trailing data |

use vstd::prelude::*;
use vstd::slice::{slice_subrange, slice_to_vec};
use vstd::utf8::{decode_utf8, encode_utf8, valid_utf8, encode_utf8_valid_utf8, encode_utf8_decode_utf8};

use crate::drain::{drain_wire, frame_record, records};
use crate::error::Error;
use crate::wire::{
    append_bytes, le16, le16_value, le32, le32_value, le64, le64_value, lemma_le16_roundtrip,
    lemma_le32_roundtrip, lemma_le64_roundtrip, push_u16, push_u32, push_u64, read_u16, read_u32,
    read_u64,
};

verus! {

/// Size of the binary frame header in bytes.
pub const FRAME_HEADER_SIZE: usize = 11;

/// Current protocol version written into every frame.
pub const PROTOCOL_VERSION: u8 = 1;

/// Per-frame overhead in the drain wire format: the u32 LE length prefix.
pub const DRAIN_FRAME_OVERHEAD: usize = 4;

// ---------------------------------------------------------------------------
// MsgType
// ---------------------------------------------------------------------------

/// Message-type tag carried in the frame header.
///
/// Known variants cover the core protocol; user-defined types start at `0x10`.
/// Any `u8` is accepted on the wire through [`MsgType::Other`]. `Other(v)` with
/// `v` one of the known codes (0x00, 0x01, 0x02, 0x04) does not survive a trip
/// through the wire: it comes back as the named variant.
#[derive(Debug, Clone, Copy, PartialEq, Eq, Structural)]
pub enum MsgType {
    /// Client-to-server request (`0x00`).
    Request,
    /// Server-to-client response (`0x01`).
    Response,
    /// Server push / event (`0x02`).
    Push,
    /// Error frame (`0x04`).
    Error,
    /// Any other message type (user-defined, `0x10`+).
    Other(u8),
}

/// The message type that the wire byte `v` denotes.
pub open spec fn msg_type_of(v: u8) -> MsgType {
    if v == 0x00 {
        MsgType::Request
    } else if v == 0x01 {
        MsgType::Response
    } else if v == 0x02 {
        MsgType::Push
    } else if v == 0x04 {
        MsgType::Error
    } else {
        MsgType::Other(v)
    }
}

/// The wire byte of a message type.
pub open spec fn msg_type_code(m: MsgType) -> u8 {
    match m {
        MsgType::Request => 0x00,
        MsgType::Response => 0x01,
        MsgType::Push => 0x02,
        MsgType::Error => 0x04,
        MsgType::Other(v) => v,
    }
}

/// A message type that is read back as itself: every named variant, and
/// `Other(v)` for a `v` that is not the code of a named variant.
pub open spec fn is_canonical_msg_type(m: MsgType) -> bool {
    match m {
        MsgType::Other(v) => v != 0x00 && v != 0x01 && v != 0x02 && v != 0x04,
        _ => true,
    }
}

impl MsgType {
    /// Convert from the on-wire `u8` representation.
    pub fn from_u8(v: u8) -> (m: Self)
        ensures
            m == msg_type_of(v),
    {
        match v {
            0x00 => MsgType::Request,
            0x01 => MsgType::Response,
            0x02 => MsgType::Push,
            0x04 => MsgType::Error,
            other => MsgType::Other(other),
        }
    }

    /// Convert to the on-wire `u8` representation.
    pub fn to_u8(self) -> (v: u8)
        ensures
            v == msg_type_code(self),
    {
        match self {
            MsgType::Request => 0x00,
            MsgType::Response => 0x01,
            MsgType::Push => 0x02,
            MsgType::Error => 0x04,
            MsgType::Other(v) => v,
        }
    }
}

/// Every wire byte survives a trip through [`MsgType`].
pub proof fn lemma_msg_type_code_roundtrip(v: u8)
    ensures
        msg_type_code(msg_type_of(v)) == v,
        is_canonical_msg_type(msg_type_of(v)),
{
}

/// A message type comes back from its wire byte as itself exactly when it is
/// canonical.
pub proof fn lemma_msg_type_roundtrip(m: MsgType)
    ensures
        msg_type_of(msg_type_code(m)) == m <==> is_canonical_msg_type(m),
{
}

// ---------------------------------------------------------------------------
// FrameHeader
// ---------------------------------------------------------------------------

/// Parsed representation of the 11-byte frame header.
#[derive(Debug, Clone, Copy, PartialEq, Eq, Structural)]
pub struct FrameHeader {
    /// Protocol version (always [`PROTOCOL_VERSION`]).
    pub version: u8,
    /// Transport identifier: 0 = protocol (reserved for future use).
    pub reserved: u8,
    /// Message type tag.
    pub msg_type: MsgType,
    /// Monotonically increasing sequence number (LE).
    pub sequence: u32,
    /// Length of the payload that follows this header (LE).
    pub payload_len: u32,
}

/// The 11 bytes that encode a header.
pub open spec fn header_bytes(h: FrameHeader) -> Seq<u8> {
    seq![h.version, h.reserved, msg_type_code(h.msg_type)] + le32(h.sequence) + le32(
        h.payload_len,
    )
}

/// The header at the start of `d`: none when `d` is shorter than a header or
/// does not start with [`PROTOCOL_VERSION`].
pub open spec fn parse_header(d: Seq<u8>) -> Option<FrameHeader> {
    if d.len() < FRAME_HEADER_SIZE || d[0] != PROTOCOL_VERSION {
        None
    } else {
        Some(
            FrameHeader {
                version: d[0],
                reserved: d[1],
                msg_type: msg_type_of(d[2]),
                sequence: le32_value(d.subrange(3, 7)),
                payload_len: le32_value(d.subrange(7, 11)),
            },
        )
    }
}

/// The header and payload of the frame at the start of `d`: none when the
/// header does not parse or fewer than `payload_len` bytes follow it.
pub open spec fn parse_frame(d: Seq<u8>) -> Option<(FrameHeader, Seq<u8>)> {
    match parse_header(d) {
        Some(h) => if FRAME_HEADER_SIZE + h.payload_len <= d.len() {
            Some((h, d.subrange(FRAME_HEADER_SIZE as int, FRAME_HEADER_SIZE + h.payload_len)))
        } else {
            None
        },
        None => None,
    }
}

/// A header that the wire carries unchanged: current version and a canonical
/// message type.
pub open spec fn is_wire_header(h: FrameHeader) -> bool {
    h.version == PROTOCOL_VERSION && is_canonical_msg_type(h.msg_type)
}

impl FrameHeader {
    /// Serialise the header into `buf` (appends exactly [`FRAME_HEADER_SIZE`] bytes).
    pub fn write_to(&self, buf: &mut Vec<u8>)
        ensures
            final(buf)@ == old(buf)@ + header_bytes(*self),
    {
        buf.push(self.version);
        buf.push(self.reserved);
        buf.push(self.msg_type.to_u8());
        push_u32(buf, self.sequence);
        push_u32(buf, self.payload_len);
        assert(buf@ =~= old(buf)@ + header_bytes(*self));
    }

    /// Attempt to parse a header from the first 11 bytes of `data`.
    ///
    /// Returns `None` if `data` is shorter than [`FRAME_HEADER_SIZE`] or does
    /// not carry [`PROTOCOL_VERSION`].
    pub fn read_from(data: &[u8]) -> (r: Option<Self>)
        ensures
            r == parse_header(data@),
    {
        if data.len() < FRAME_HEADER_SIZE {
            return None;
        }
        let version = data[0];
        if version != PROTOCOL_VERSION {
            return None;
        }
        let reserved = data[1];
        let msg_type = MsgType::from_u8(data[2]);
        let sequence = read_u32(data, 3);
        let payload_len = read_u32(data, 7);
        Some(FrameHeader { version, reserved, msg_type, sequence, payload_len })
    }
}

/// Reading the bytes of a wire header gives the header back, whatever follows it.
pub proof fn lemma_header_roundtrip(h: FrameHeader, rest: Seq<u8>)
    requires
        is_wire_header(h),
    ensures
        header_bytes(h).len() == FRAME_HEADER_SIZE,
        parse_header(header_bytes(h) + rest) == Some(h),
{
    let d = header_bytes(h) + rest;
    lemma_le32_roundtrip(h.sequence);
    lemma_le32_roundtrip(h.payload_len);
    assert(d.subrange(3, 7) =~= le32(h.sequence));
    assert(d.subrange(7, 11) =~= le32(h.payload_len));
}

// ---------------------------------------------------------------------------
// frame_pack / frame_unpack
// ---------------------------------------------------------------------------

/// Build a complete frame: header bytes followed by payload bytes.
///
/// The header must announce the payload's length.
pub fn frame_pack(header: &FrameHeader, payload: &[u8]) -> (frame: Vec<u8>)
    requires
        header.payload_len == payload@.len(),
    ensures
        frame@ == header_bytes(*header) + payload@,
{
    let mut buf: Vec<u8> = Vec::new();
    header.write_to(&mut buf);
    append_bytes(&mut buf, payload);
    buf
}

/// Split a complete frame into its header and payload slice.
///
/// Returns `None` if the data is too short for the header, or if the
/// remaining bytes are fewer than `payload_len`.
pub fn frame_unpack(data: &[u8]) -> (r: Option<(FrameHeader, &[u8])>)
    ensures
        match r {
            Some((h, p)) => parse_frame(data@) == Some((h, p@)),
            None => parse_frame(data@) is None,
        },
{
    let header = match FrameHeader::read_from(data) {
        Some(h) => h,
        None => return None,
    };
    let len = header.payload_len as usize;
    if len > data.len() - FRAME_HEADER_SIZE {
        return None;
    }
    let payload_end = FRAME_HEADER_SIZE + len;
    Some((header, slice_subrange(data, FRAME_HEADER_SIZE, payload_end)))
}

/// Unpacking a packed frame gives back the header and the payload.
pub proof fn lemma_frame_roundtrip(h: FrameHeader, payload: Seq<u8>)
    requires
        is_wire_header(h),
        h.payload_len == payload.len(),
    ensures
        parse_frame(header_bytes(h) + payload) == Some((h, payload)),
{
    lemma_header_roundtrip(h, payload);
    let d = header_bytes(h) + payload;
    assert(d.subrange(FRAME_HEADER_SIZE as int, FRAME_HEADER_SIZE + h.payload_len) =~= payload);
}

// ---------------------------------------------------------------------------
// Encode / Decode traits
// ---------------------------------------------------------------------------

/// Encode a value into a byte buffer in the binary wire format.
pub trait Encode {
    /// The bytes that encode this value.
    spec fn wire_bytes(&self) -> Seq<u8>;

    /// Whether the value can be encoded: every length prefix fits in a u32
    /// and the encoding's size fits in a `usize`.
    spec fn encodable(&self) -> bool;

    /// Append the encoded representation to `buf`.
    fn encode(&self, buf: &mut Vec<u8>)
        requires
            self.encodable(),
        ensures
            final(buf)@ == old(buf)@ + self.wire_bytes(),
    ;

    /// The exact number of bytes that [`encode`](Encode::encode) will append.
    fn encode_size(&self) -> (n: usize)
        requires
            self.encodable(),
        ensures
            n == self.wire_bytes().len(),
    ;
}

/// Decode a value from a byte slice in the binary wire format.
///
/// Decoding yields the value together with the number of bytes consumed,
/// or `None` if the data is too short or malformed.
pub trait Decode: Sized + DeepView {
    /// Minimum number of bytes required to attempt decoding this type.
    ///
    /// For fixed-size types this equals the exact encoded size; for
    /// variable-size types it is the length prefix size.
    const MIN_SIZE: usize = 0;

    /// What decoding `data` gives: the decoded value's view and the number of
    /// bytes consumed, or none.
    spec fn wire_decode(data: Seq<u8>) -> Option<(Self::V, int)>;

    /// Attempt to decode from the start of `data`.
    fn decode(data: &[u8]) -> (r: Option<(Self, usize)>)
        ensures
            match r {
                Some((v, n)) => {
                    &&& Self::wire_decode(data@) == Some((v.deep_view(), n as int))
                    &&& n <= data@.len()
                },
                None => Self::wire_decode(data@) is None,
            },
    ;
}

/// `T` reads back whatever it writes, whatever bytes follow.
pub open spec fn decodes_own_encoding<T: Encode + Decode>() -> bool {
    forall|x: T, rest: Seq<u8>|
        #![trigger T::wire_decode(x.wire_bytes() + rest)]
        x.encodable() ==> T::wire_decode(x.wire_bytes() + rest) == Some(
            (x.deep_view(), x.wire_bytes().len() as int),
        )
}

// ---------------------------------------------------------------------------
// Fixed-width integers and bool
// ---------------------------------------------------------------------------

/// Decoding a fixed-width value of `width` bytes: the first `width` bytes
/// read by `read`, or none when fewer bytes are available.
pub open spec fn fixed_decode<V>(data: Seq<u8>, width: int, read: spec_fn(Seq<u8>) -> V) -> Option<
    (V, int),
> {
    if data.len() < width {
        None
    } else {
        Some((read(data.take(width)), width))
    }
}

impl Encode for u8 {
    open spec fn wire_bytes(&self) -> Seq<u8> {
        seq![*self]
    }

    open spec fn encodable(&self) -> bool {
        true
    }

    fn encode(&self, buf: &mut Vec<u8>) {
        buf.push(*self);
    }

    fn encode_size(&self) -> (n: usize) {
        1
    }
}

impl Decode for u8 {
    const MIN_SIZE: usize = 1;

    open spec fn wire_decode(data: Seq<u8>) -> Option<(u8, int)> {
        fixed_decode(data, 1, |b: Seq<u8>| b[0])
    }

    fn decode(data: &[u8]) -> (r: Option<(Self, usize)>) {
        if data.len() < 1 {
            return None;
        }
        Some((data[0], 1))
    }
}

impl Encode for u16 {
    open spec fn wire_bytes(&self) -> Seq<u8> {
        le16(*self)
    }

    open spec fn encodable(&self) -> bool {
        true
    }

    fn encode(&self, buf: &mut Vec<u8>) {
        push_u16(buf, *self);
    }

    fn encode_size(&self) -> (n: usize) {
        2
    }
}

impl Decode for u16 {
    const MIN_SIZE: usize = 2;

    open spec fn wire_decode(data: Seq<u8>) -> Option<(u16, int)> {
        fixed_decode(data, 2, |b: Seq<u8>| le16_value(b))
    }

    fn decode(data: &[u8]) -> (r: Option<(Self, usize)>) {
        if data.len() < 2 {
            return None;
        }
        Some((read_u16(data, 0), 2))
    }
}

impl Encode for u32 {
    open spec fn wire_bytes(&self) -> Seq<u8> {
        le32(*self)
    }

    open spec fn encodable(&self) -> bool {
        true
    }

    fn encode(&self, buf: &mut Vec<u8>) {
        push_u32(buf, *self);
    }

    fn encode_size(&self) -> (n: usize) {
        4
    }
}

impl Decode for u32 {
    const MIN_SIZE: usize = 4;

    open spec fn wire_decode(data: Seq<u8>) -> Option<(u32, int)> {
        fixed_decode(data, 4, |b: Seq<u8>| le32_value(b))
    }

    fn decode(data: &[u8]) -> (r: Option<(Self, usize)>) {
        if data.len() < 4 {
            return None;
        }
        Some((read_u32(data, 0), 4))
    }
}

impl Encode for u64 {
    open spec fn wire_bytes(&self) -> Seq<u8> {
        le64(*self)
    }

    open spec fn encodable(&self) -> bool {
        true
    }

    fn encode(&self, buf: &mut Vec<u8>) {
        push_u64(buf, *self);
    }

    fn encode_size(&self) -> (n: usize) {
        8
    }
}

impl Decode for u64 {
    const MIN_SIZE: usize = 8;

    open spec fn wire_decode(data: Seq<u8>) -> Option<(u64, int)> {
        fixed_decode(data, 8, |b: Seq<u8>| le64_value(b))
    }

    fn decode(data: &[u8]) -> (r: Option<(Self, usize)>) {
        if data.len() < 8 {
            return None;
        }
        Some((read_u64(data, 0), 8))
    }
}

impl Encode for i8 {
    open spec fn wire_bytes(&self) -> Seq<u8> {
        seq![*self as u8]
    }

    open spec fn encodable(&self) -> bool {
        true
    }

    fn encode(&self, buf: &mut Vec<u8>) {
        buf.push(*self as u8);
    }

    fn encode_size(&self) -> (n: usize) {
        1
    }
}

impl Decode for i8 {
    const MIN_SIZE: usize = 1;

    open spec fn wire_decode(data: Seq<u8>) -> Option<(i8, int)> {
        fixed_decode(data, 1, |b: Seq<u8>| b[0] as i8)
    }

    fn decode(data: &[u8]) -> (r: Option<(Self, usize)>) {
        if data.len() < 1 {
            return None;
        }
        Some((data[0] as i8, 1))
    }
}

impl Encode for i16 {
    open spec fn wire_bytes(&self) -> Seq<u8> {
        le16(*self as u16)
    }

    open spec fn encodable(&self) -> bool {
        true
    }

    fn encode(&self, buf: &mut Vec<u8>) {
        push_u16(buf, *self as u16);
    }

    fn encode_size(&self) -> (n: usize) {
        2
    }
}

impl Decode for i16 {
    const MIN_SIZE: usize = 2;

    open spec fn wire_decode(data: Seq<u8>) -> Option<(i16, int)> {
        fixed_decode(data, 2, |b: Seq<u8>| le16_value(b) as i16)
    }

    fn decode(data: &[u8]) -> (r: Option<(Self, usize)>) {
        if data.len() < 2 {
            return None;
        }
        Some((read_u16(data, 0) as i16, 2))
    }
}

impl Encode for i32 {
    open spec fn wire_bytes(&self) -> Seq<u8> {
        le32(*self as u32)
    }

    open spec fn encodable(&self) -> bool {
        true
    }

    fn encode(&self, buf: &mut Vec<u8>) {
        push_u32(buf, *self as u32);
    }

    fn encode_size(&self) -> (n: usize) {
        4
    }
}

impl Decode for i32 {
    const MIN_SIZE: usize = 4;

    open spec fn wire_decode(data: Seq<u8>) -> Option<(i32, int)> {
        fixed_decode(data, 4, |b: Seq<u8>| le32_value(b) as i32)
    }

    fn decode(data: &[u8]) -> (r: Option<(Self, usize)>) {
        if data.len() < 4 {
            return None;
        }
        Some((read_u32(data, 0) as i32, 4))
    }
}

impl Encode for i64 {
    open spec fn wire_bytes(&self) -> Seq<u8> {
        le64(*self as u64)
    }

    open spec fn encodable(&self) -> bool {
        true
    }

    fn encode(&self, buf: &mut Vec<u8>) {
        push_u64(buf, *self as u64);
    }

    fn encode_size(&self) -> (n: usize) {
        8
    }
}

impl Decode for i64 {
    const MIN_SIZE: usize = 8;

    open spec fn wire_decode(data: Seq<u8>) -> Option<(i64, int)> {
        fixed_decode(data, 8, |b: Seq<u8>| le64_value(b) as i64)
    }

    fn decode(data: &[u8]) -> (r: Option<(Self, usize)>) {
        if data.len() < 8 {
            return None;
        }
        Some((read_u64(data, 0) as i64, 8))
    }
}

/// bool is a single byte: 0 for false, 1 for true.
impl Encode for bool {
    open spec fn wire_bytes(&self) -> Seq<u8> {
        if *self {
            seq![1u8]
        } else {
            seq![0u8]
        }
    }

    open spec fn encodable(&self) -> bool {
        true
    }

    fn encode(&self, buf: &mut Vec<u8>) {
        buf.push(if *self { 1u8 } else { 0u8 });
    }

    fn encode_size(&self) -> (n: usize) {
        1
    }
}

impl Decode for bool {
    const MIN_SIZE: usize = 1;

    /// Only the bytes 0 and 1 are booleans.
    open spec fn wire_decode(data: Seq<u8>) -> Option<(bool, int)> {
        if data.len() < 1 {
            None
        } else if data[0] == 0 {
            Some((false, 1))
        } else if data[0] == 1 {
            Some((true, 1))
        } else {
            None
        }
    }

    fn decode(data: &[u8]) -> (r: Option<(Self, usize)>) {
        if data.len() == 0 {
            return None;
        }
        match data[0] {
            0 => Some((false, 1)),
            1 => Some((true, 1)),
            _ => None,
        }
    }
}

/// Every fixed-width integer type and bool reads back what it writes.
pub proof fn lemma_fixed_width_roundtrip()
    ensures
        decodes_own_encoding::<u8>(),
        decodes_own_encoding::<u16>(),
        decodes_own_encoding::<u32>(),
        decodes_own_encoding::<u64>(),
        decodes_own_encoding::<i8>(),
        decodes_own_encoding::<i16>(),
        decodes_own_encoding::<i32>(),
        decodes_own_encoding::<i64>(),
        decodes_own_encoding::<bool>(),
{
    assert forall|x: u8, rest: Seq<u8>| #[trigger] u8::wire_decode(x.wire_bytes() + rest) == Some((x, 1int)) by {
        assert((x.wire_bytes() + rest).take(1) =~= seq![x]);
    }
    assert forall|x: u16, rest: Seq<u8>| #[trigger] u16::wire_decode(x.wire_bytes() + rest) == Some((x, 2int)) by {
        lemma_le16_roundtrip(x);
        assert((x.wire_bytes() + rest).take(2) =~= le16(x));
    }
    assert forall|x: u32, rest: Seq<u8>| #[trigger] u32::wire_decode(x.wire_bytes() + rest) == Some((x, 4int)) by {
        lemma_le32_roundtrip(x);
        assert((x.wire_bytes() + rest).take(4) =~= le32(x));
    }
    assert forall|x: u64, rest: Seq<u8>| #[trigger] u64::wire_decode(x.wire_bytes() + rest) == Some((x, 8int)) by {
        lemma_le64_roundtrip(x);
        assert((x.wire_bytes() + rest).take(8) =~= le64(x));
    }
    assert forall|x: i8, rest: Seq<u8>| #[trigger] i8::wire_decode(x.wire_bytes() + rest) == Some((x, 1int)) by {
        assert((x.wire_bytes() + rest).take(1) =~= seq![x as u8]);
        assert((x as u8) as i8 == x) by (bit_vector);
    }
    assert forall|x: i16, rest: Seq<u8>| #[trigger] i16::wire_decode(x.wire_bytes() + rest) == Some((x, 2int)) by {
        lemma_le16_roundtrip(x as u16);
        assert((x.wire_bytes() + rest).take(2) =~= le16(x as u16));
        assert((x as u16) as i16 == x) by (bit_vector);
    }
    assert forall|x: i32, rest: Seq<u8>| #[trigger] i32::wire_decode(x.wire_bytes() + rest) == Some((x, 4int)) by {
        lemma_le32_roundtrip(x as u32);
        assert((x.wire_bytes() + rest).take(4) =~= le32(x as u32));
        assert((x as u32) as i32 == x) by (bit_vector);
    }
    assert forall|x: i64, rest: Seq<u8>| #[trigger] i64::wire_decode(x.wire_bytes() + rest) == Some((x, 8int)) by {
        lemma_le64_roundtrip(x as u64);
        assert((x.wire_bytes() + rest).take(8) =~= le64(x as u64));
        assert((x as u64) as i64 == x) by (bit_vector);
    }
    assert forall|x: bool, rest: Seq<u8>| #[trigger] bool::wire_decode(x.wire_bytes() + rest) == Some((x, 1int)) by {
        assert((x.wire_bytes() + rest)[0] == x.wire_bytes()[0]);
    }
}

/// Fewer than `MIN_SIZE` bytes never decode to a `T`.
pub open spec fn needs_min_size<T: Decode>() -> bool {
    forall|d: Seq<u8>| d.len() < T::MIN_SIZE ==> #[trigger] T::wire_decode(d) is None
}

/// Every value of `T` encodes to exactly `MIN_SIZE` bytes.
pub open spec fn min_size_is_width<T: Encode + Decode>() -> bool {
    forall|x: T| #[trigger] x.wire_bytes().len() == T::MIN_SIZE
}

/// For the fixed-width types `MIN_SIZE` is the exact encoded size, and
/// fewer bytes never decode.
pub proof fn lemma_fixed_width_min_size()
    ensures
        needs_min_size::<u8>() && min_size_is_width::<u8>(),
        needs_min_size::<u16>() && min_size_is_width::<u16>(),
        needs_min_size::<u32>() && min_size_is_width::<u32>(),
        needs_min_size::<u64>() && min_size_is_width::<u64>(),
        needs_min_size::<i8>() && min_size_is_width::<i8>(),
        needs_min_size::<i16>() && min_size_is_width::<i16>(),
        needs_min_size::<i32>() && min_size_is_width::<i32>(),
        needs_min_size::<i64>() && min_size_is_width::<i64>(),
        needs_min_size::<bool>() && min_size_is_width::<bool>(),
{
}

// ---------------------------------------------------------------------------
// Vec<T>: u32 LE element count, then each element in sequence
// ---------------------------------------------------------------------------

/// The encodings of the items of `s`, one after the other.
pub open spec fn concat_wire<T: Encode>(s: Seq<T>) -> Seq<u8>
    decreases s.len(),
{
    if s.len() == 0 {
        Seq::empty()
    } else {
        concat_wire(s.drop_last()) + s.last().wire_bytes()
    }
}

/// The encoding of a concatenation is the concatenation of the encodings.
pub proof fn lemma_concat_wire_append<T: Encode>(a: Seq<T>, b: Seq<T>)
    ensures
        concat_wire(a + b) == concat_wire(a) + concat_wire(b),
    decreases b.len(),
{
    if b.len() == 0 {
        assert(a + b =~= a);
        assert(concat_wire(a) + concat_wire(b) =~= concat_wire(a));
    } else {
        lemma_concat_wire_append(a, b.drop_last());
        assert((a + b).drop_last() =~= a + b.drop_last());
        assert(concat_wire(a) + concat_wire(b) =~= concat_wire(a) + concat_wire(b.drop_last())
            + b.last().wire_bytes());
    }
}

/// A prefix's encoding is no longer than the whole encoding.
proof fn lemma_concat_wire_prefix_len<T: Encode>(s: Seq<T>, i: int)
    requires
        0 <= i <= s.len(),
    ensures
        concat_wire(s.take(i)).len() <= concat_wire(s).len(),
{
    lemma_concat_wire_append(s.take(i), s.skip(i));
    assert(s.take(i) + s.skip(i) =~= s);
}

impl<T: Encode> Encode for Vec<T> {
    open spec fn wire_bytes(&self) -> Seq<u8> {
        le32(self@.len() as u32) + concat_wire(self@)
    }

    open spec fn encodable(&self) -> bool {
        &&& self@.len() <= u32::MAX
        &&& forall|i: int| 0 <= i < self@.len() ==> #[trigger] self@[i].encodable()
        &&& 4 + concat_wire(self@).len() <= usize::MAX
    }

    fn encode(&self, buf: &mut Vec<u8>) {
        let count = self.len() as u32;
        push_u32(buf, count);
        let mut i: usize = 0;
        while i < self.len()
            invariant
                i <= self@.len(),
                count == self@.len(),
                forall|j: int| 0 <= j < self@.len() ==> #[trigger] self@[j].encodable(),
                buf@ == old(buf)@ + le32(count) + concat_wire(self@.take(i as int)),
            decreases self@.len() - i,
        {
            self[i].encode(buf);
            i = i + 1;
            assert(self@.take(i as int).drop_last() =~= self@.take(i - 1));
            assert(buf@ =~= old(buf)@ + le32(count) + concat_wire(self@.take(i as int)));
        }
        assert(self@.take(self@.len() as int) =~= self@);
    }

    fn encode_size(&self) -> (n: usize) {
        let mut total: usize = 4;
        let mut i: usize = 0;
        while i < self.len()
            invariant
                i <= self@.len(),
                forall|j: int| 0 <= j < self@.len() ==> #[trigger] self@[j].encodable(),
                4 + concat_wire(self@).len() <= usize::MAX,
                total == 4 + concat_wire(self@.take(i as int)).len(),
            decreases self@.len() - i,
        {
            let n = self[i].encode_size();
            proof {
                assert(self@.take(i + 1).drop_last() =~= self@.take(i as int));
                lemma_concat_wire_prefix_len(self@, i + 1);
            }
            total = total + n;
            i = i + 1;
        }
        assert(self@.take(self@.len() as int) =~= self@);
        total
    }
}

/// Decoding `count` items one after the other, the first one at `start`:
/// their views and the position after the last, or none when one fails.
pub open spec fn decode_items<T: Decode>(data: Seq<u8>, start: int, count: nat) -> Option<
    (Seq<T::V>, int),
>
    decreases count,
{
    if count == 0 {
        Some((Seq::empty(), start))
    } else {
        match decode_items::<T>(data, start, (count - 1) as nat) {
            Some((items, end)) => match T::wire_decode(data.subrange(end, data.len() as int)) {
                Some((v, n)) => Some((items.push(v), end + n)),
                None => None,
            },
            None => None,
        }
    }
}

/// Once an item fails to decode, decoding more items fails too.
proof fn lemma_decode_items_fail<T: Decode>(data: Seq<u8>, start: int, k: nat, count: nat)
    requires
        k <= count,
        decode_items::<T>(data, start, k) is None,
    ensures
        decode_items::<T>(data, start, count) is None,
    decreases count - k,
{
    if k < count {
        lemma_decode_items_fail::<T>(data, start, k + 1, count);
    }
}

impl<T: Decode> Decode for Vec<T> {
    const MIN_SIZE: usize = 4;

    open spec fn wire_decode(data: Seq<u8>) -> Option<(Seq<T::V>, int)> {
        if data.len() < 4 {
            None
        } else {
            decode_items::<T>(data, 4, le32_value(data.take(4)) as nat)
        }
    }

    fn decode(data: &[u8]) -> (r: Option<(Self, usize)>) {
        if data.len() < 4 {
            return None;
        }
        let count = read_u32(data, 0) as usize;
        assert(data@.subrange(0, 4) =~= data@.take(4));
        let mut off: usize = 4;
        let mut items: Vec<T> = Vec::with_capacity(count);
        let mut k: usize = 0;
        while k < count
            invariant
                k <= count,
                count == le32_value(data@.take(4)),
                4 <= off <= data@.len(),
                decode_items::<T>(data@, 4, k as nat) == Some((items.deep_view(), off as int)),
            decreases count - k,
        {
            let rest = slice_subrange(data, off, data.len());
            let (item, consumed) = match T::decode(rest) {
                Some(x) => x,
                None => {
                    proof {
                        lemma_decode_items_fail::<T>(data@, 4, (k + 1) as nat, count as nat);
                    }
                    return None;
                },
            };
            let ghost old_items = items.deep_view();
            items.push(item);
            off = off + consumed;
            k = k + 1;
            assert(items.deep_view() =~= old_items.push(item.deep_view()));
        }
        Some((items, off))
    }
}

/// Vectors read back what they write, when their items do.
pub proof fn lemma_vec_roundtrip<T: Encode + Decode>()
    requires
        decodes_own_encoding::<T>(),
    ensures
        decodes_own_encoding::<Vec<T>>(),
{
    assert forall|x: Vec<T>, rest: Seq<u8>| x.encodable() implies #[trigger] Vec::<T>::wire_decode(
        x.wire_bytes() + rest,
    ) == Some((x.deep_view(), x.wire_bytes().len() as int)) by {
        let data = x.wire_bytes() + rest;
        let n = x@.len();
        lemma_le32_roundtrip(n as u32);
        assert(data.take(4) =~= le32(n as u32));
        lemma_vec_items_roundtrip::<T>(x@, rest, n as nat);
        assert(x@.take(n as int) =~= x@);
        assert(x.deep_view() =~= x@.map_values(|e: T| e.deep_view()));
    }
}

/// Decoding the first `k` items of an encoded sequence gives their views.
proof fn lemma_vec_items_roundtrip<T: Encode + Decode>(s: Seq<T>, rest: Seq<u8>, k: nat)
    requires
        decodes_own_encoding::<T>(),
        k <= s.len(),
        s.len() <= u32::MAX,
        forall|i: int| 0 <= i < s.len() ==> #[trigger] s[i].encodable(),
    ensures
        decode_items::<T>(le32(s.len() as u32) + concat_wire(s) + rest, 4, k) == Some(
            (s.take(k as int).map_values(|e: T| e.deep_view()), 4 + concat_wire(s.take(k as int)).len() as int),
        ),
    decreases k,
{
    let data = le32(s.len() as u32) + concat_wire(s) + rest;
    if k == 0 {
        assert(s.take(0).map_values(|e: T| e.deep_view()) =~= Seq::<T::V>::empty());
    } else {
        lemma_vec_items_roundtrip::<T>(s, rest, (k - 1) as nat);
        let i = k - 1;
        let end = 4 + concat_wire(s.take(i)).len() as int;
        let tail = concat_wire(s.skip(k as int)) + rest;
        lemma_concat_wire_append(s.take(i), s.skip(i));
        assert(s.take(i) + s.skip(i) =~= s);
        assert(s.skip(i).drop_last() =~= s.skip(i).take(s.skip(i).len() - 1));
        lemma_concat_wire_append(seq![s[i]], s.skip(k as int));
        assert(seq![s[i]] + s.skip(k as int) =~= s.skip(i));
        let one = seq![s[i]];
        assert(one.drop_last() =~= Seq::<T>::empty());
        assert(concat_wire(one) == concat_wire(one.drop_last()) + one.last().wire_bytes());
        assert(concat_wire(one) =~= s[i].wire_bytes());
        assert(data.subrange(end, data.len() as int) =~= s[i].wire_bytes() + tail);
        assert(T::wire_decode(s[i].wire_bytes() + tail) == Some(
            (s[i].deep_view(), s[i].wire_bytes().len() as int),
        ));
        assert(s.take(k as int).drop_last() =~= s.take(i));
        assert(s.take(k as int).map_values(|e: T| e.deep_view()) =~= s.take(i).map_values(
            |e: T| e.deep_view(),
        ).push(s[i].deep_view()));
    }
}

// ---------------------------------------------------------------------------
// String: u32 LE byte length, then the UTF-8 bytes
// ---------------------------------------------------------------------------

/// The string that the bytes `bytes` spell, when they are valid UTF-8.
///
/// Trusted: wraps `std::str::from_utf8`, which returns an error exactly when
/// the bytes are not valid UTF-8 and otherwise the string they encode.
#[verifier::external_body]
fn string_from_utf8(bytes: &[u8]) -> (r: Option<String>)
    ensures
        r is Some <==> valid_utf8(bytes@),
        r matches Some(s) ==> s@ == decode_utf8(bytes@),
{
    std::str::from_utf8(bytes).ok().map(|s| s.to_owned())
}

impl Encode for String {
    open spec fn wire_bytes(&self) -> Seq<u8> {
        le32(encode_utf8(self@).len() as u32) + encode_utf8(self@)
    }

    open spec fn encodable(&self) -> bool {
        &&& encode_utf8(self@).len() <= u32::MAX
        &&& 4 + encode_utf8(self@).len() <= usize::MAX
    }

    fn encode(&self, buf: &mut Vec<u8>) {
        let bytes = self.as_str().as_bytes();
        push_u32(buf, bytes.len() as u32);
        append_bytes(buf, bytes);
    }

    fn encode_size(&self) -> (n: usize) {
        4 + self.as_str().len()
    }
}

impl Decode for String {
    const MIN_SIZE: usize = 4;

    /// A length prefix, then that many bytes of valid UTF-8.
    open spec fn wire_decode(data: Seq<u8>) -> Option<(Seq<char>, int)> {
        if data.len() < 4 {
            None
        } else {
            let len = le32_value(data.take(4));
            if len > data.len() - 4 {
                None
            } else if !valid_utf8(data.subrange(4, 4 + len)) {
                None
            } else {
                Some((decode_utf8(data.subrange(4, 4 + len)), 4 + len))
            }
        }
    }

    fn decode(data: &[u8]) -> (r: Option<(Self, usize)>) {
        if data.len() < 4 {
            return None;
        }
        let len = read_u32(data, 0) as usize;
        assert(data@.subrange(0, 4) =~= data@.take(4));
        if len > data.len() - 4 {
            return None;
        }
        let total = 4 + len;
        match string_from_utf8(slice_subrange(data, 4, total)) {
            Some(s) => Some((s, total)),
            None => None,
        }
    }
}

/// Strings read back what they write.
pub proof fn lemma_string_roundtrip()
    ensures
        decodes_own_encoding::<String>(),
{
    assert forall|x: String, rest: Seq<u8>| x.encodable() implies #[trigger] String::wire_decode(
        x.wire_bytes() + rest,
    ) == Some((x.deep_view(), x.wire_bytes().len() as int)) by {
        let bytes = encode_utf8(x@);
        let data = x.wire_bytes() + rest;
        lemma_le32_roundtrip(bytes.len() as u32);
        assert(data.take(4) =~= le32(bytes.len() as u32));
        assert(data.subrange(4, 4 + bytes.len() as int) =~= bytes);
        encode_utf8_valid_utf8(x@);
        encode_utf8_decode_utf8(x@);
    }
}

// ---------------------------------------------------------------------------
// Bytes: Vec<u8> with bulk encode/decode
// ---------------------------------------------------------------------------

/// A newtype wrapper around `Vec<u8>` that encodes and decodes in bulk.
///
/// The wire format is identical to `Vec<u8>`: `[u32 LE count][bytes...]`.
#[derive(Debug, Clone, PartialEq, Eq, Hash, Default)]
pub struct Bytes(pub Vec<u8>);

impl DeepView for Bytes {
    type V = Seq<u8>;

    open spec fn deep_view(&self) -> Seq<u8> {
        self.0@
    }
}

impl From<Vec<u8>> for Bytes {
    fn from(v: Vec<u8>) -> (b: Self) {
        Bytes(v)
    }
}

impl vstd::std_specs::convert::FromSpecImpl<Vec<u8>> for Bytes {
    open spec fn obeys_from_spec() -> bool {
        true
    }

    open spec fn from_spec(v: Vec<u8>) -> Self {
        Bytes(v)
    }
}

impl From<Bytes> for Vec<u8> {
    fn from(b: Bytes) -> (v: Self) {
        b.0
    }
}

impl vstd::std_specs::convert::FromSpecImpl<Bytes> for Vec<u8> {
    open spec fn obeys_from_spec() -> bool {
        true
    }

    open spec fn from_spec(b: Bytes) -> Self {
        b.0
    }
}

impl std::ops::Deref for Bytes {
    type Target = [u8];

    fn deref(&self) -> (r: &[u8])
        ensures
            r@ == self.0@,
    {
        self.0.as_slice()
    }
}

impl AsRef<[u8]> for Bytes {
    fn as_ref(&self) -> (r: &[u8])
        ensures
            r@ == self.0@,
    {
        self.0.as_slice()
    }
}

impl Encode for Bytes {
    open spec fn wire_bytes(&self) -> Seq<u8> {
        le32(self.0@.len() as u32) + self.0@
    }

    open spec fn encodable(&self) -> bool {
        &&& self.0@.len() <= u32::MAX
        &&& 4 + self.0@.len() <= usize::MAX
    }

    fn encode(&self, buf: &mut Vec<u8>) {
        push_u32(buf, self.0.len() as u32);
        append_bytes(buf, self.0.as_slice());
    }

    fn encode_size(&self) -> (n: usize) {
        4 + self.0.len()
    }
}

impl Decode for Bytes {
    const MIN_SIZE: usize = 4;

    /// A length prefix, then that many bytes.
    open spec fn wire_decode(data: Seq<u8>) -> Option<(Seq<u8>, int)> {
        if data.len() < 4 {
            None
        } else {
            let count = le32_value(data.take(4));
            if data.len() < 4 + count {
                None
            } else {
                Some((data.subrange(4, 4 + count), 4 + count))
            }
        }
    }

    fn decode(data: &[u8]) -> (r: Option<(Self, usize)>) {
        if data.len() < 4 {
            return None;
        }
        let count = read_u32(data, 0) as usize;
        assert(data@.subrange(0, 4) =~= data@.take(4));
        let total = match 4usize.checked_add(count) {
            Some(t) => t,
            None => return None,
        };
        if data.len() < total {
            return None;
        }
        Some((Bytes(slice_to_vec(slice_subrange(data, 4, total))), total))
    }
}

/// `Bytes` reads back what it writes.
pub proof fn lemma_bytes_roundtrip()
    ensures
        decodes_own_encoding::<Bytes>(),
{
    assert forall|x: Bytes, rest: Seq<u8>| x.encodable() implies #[trigger] Bytes::wire_decode(
        x.wire_bytes() + rest,
    ) == Some((x.deep_view(), x.wire_bytes().len() as int)) by {
        let data = x.wire_bytes() + rest;
        lemma_le32_roundtrip(x.0@.len() as u32);
        assert(data.take(4) =~= le32(x.0@.len() as u32));
        assert(data.subrange(4, 4 + x.0@.len() as int) =~= x.0@);
    }
}

/// The encodings of a sequence of bytes, one after the other, are the bytes.
proof fn lemma_concat_wire_bytes(s: Seq<u8>)
    ensures
        concat_wire(s) == s,
    decreases s.len(),
{
    if s.len() > 0 {
        lemma_concat_wire_bytes(s.drop_last());
        assert(s.drop_last() + seq![s.last()] =~= s);
    } else {
        assert(s =~= Seq::<u8>::empty());
    }
}

/// `Bytes` and `Vec<u8>` write the same wire format: the byte count as a
/// u32 LE, then the bytes, `4 + len` bytes in all. Both can be encoded
/// exactly when the count fits a u32 and the size a `usize`, which on a
/// 64-bit target the first implies.
pub proof fn lemma_bytes_wire_matches_vec(v: Vec<u8>)
    ensures
        Bytes(v).wire_bytes() == v.wire_bytes(),
        Bytes(v).encodable() == v.encodable(),
        v@.len() <= u32::MAX ==> Bytes(v).wire_bytes() == le32(v@.len() as u32) + v@,
        Bytes(v).wire_bytes().len() == 4 + v@.len(),
        Bytes(v).encodable() <==> (v@.len() <= u32::MAX && 4 + v@.len() <= usize::MAX),
        usize::BITS == 64 && v@.len() <= u32::MAX ==> Bytes(v).encodable(),
{
    lemma_concat_wire_bytes(v@);
}

/// For the length-prefixed types `MIN_SIZE` is the size of the prefix:
/// fewer bytes never decode.
pub proof fn lemma_length_prefixed_min_size<T: Decode>()
    ensures
        needs_min_size::<Vec<T>>(),
        needs_min_size::<String>(),
        needs_min_size::<Bytes>(),
{
}

/// Decode the argument of a binary command from its request payload; bytes
/// after the value are ignored. Fails with [`Error::DecodeFailed`] when the
/// payload does not start with a value of type `A`.
pub fn decode_payload<A: Decode>(payload: &[u8]) -> (r: Result<A, Error>)
    ensures
        match r {
            Ok(v) => A::wire_decode(payload@) matches Some((view, _)) && view == v.deep_view(),
            Err(e) => A::wire_decode(payload@) is None && e == Error::DecodeFailed,
        },
{
    match A::decode(payload) {
        Some((v, _consumed)) => Ok(v),
        None => Err(Error::DecodeFailed),
    }
}

/// A bool travels as its integer value in one byte, as the `u8` of that
/// value does: `true` as 1, `false` as 0. A first byte other than 0 or 1 is
/// no bool.
pub proof fn lemma_bool_wire(b: bool, rest: Seq<u8>, x: u8)
    ensures
        true.wire_bytes() == seq![1u8],
        false.wire_bytes() == seq![0u8],
        b.wire_bytes() == (if b { 1u8 } else { 0u8 }).wire_bytes(),
        bool::wire_decode(seq![1u8] + rest) == Some((true, 1int)),
        bool::wire_decode(seq![0u8] + rest) == Some((false, 1int)),
        x > 1 ==> bool::wire_decode(seq![x] + rest) is None,
        bool::wire_decode(seq![x] + rest) matches Some((v, _)) ==> u8::wire_decode(seq![x] + rest)
            == Some(((if v { 1u8 } else { 0u8 }), 1int)),
{
    assert((seq![1u8] + rest)[0] == 1);
    assert((seq![0u8] + rest)[0] == 0);
    assert((seq![x] + rest)[0] == x);
    assert((seq![x] + rest).take(1) =~= seq![x]);
}

/// Decoding `k` items one after the other gives `k` items, when it
/// succeeds.
proof fn lemma_decode_items_count<T: Decode>(data: Seq<u8>, start: int, k: nat)
    ensures
        decode_items::<T>(data, start, k) matches Some((items, _)) ==> items.len() == k,
    decreases k,
{
    if k > 0 {
        lemma_decode_items_count::<T>(data, start, (k - 1) as nat);
    }
}

/// A decoded vector holds exactly as many items as its u32 count prefix
/// announces: a missing item makes the whole decoding fail.
pub proof fn lemma_vec_decode_count<T: Decode>(d: Seq<u8>)
    ensures
        Vec::<T>::wire_decode(d) matches Some((items, _)) ==> u32::wire_decode(d) matches Some(
            (c, _),
        ) && items.len() == c,
{
    if d.len() >= 4 {
        lemma_decode_items_count::<T>(d, 4, le32_value(d.take(4)) as nat);
    }
}

/// Decoding `k` single bytes from 4 on takes the next `k` bytes, when there
/// are that many.
proof fn lemma_decode_items_bytes(d: Seq<u8>, k: nat)
    requires
        d.len() >= 4,
    ensures
        decode_items::<u8>(d, 4, k) == (if 4 + k <= d.len() {
            Some((d.subrange(4, 4 + k as int), 4 + k as int))
        } else {
            None::<(Seq<u8>, int)>
        }),
    decreases k,
{
    if k == 0 {
        assert(d.subrange(4, 4) =~= Seq::<u8>::empty());
    } else {
        lemma_decode_items_bytes(d, (k - 1) as nat);
        if 4 + k <= d.len() {
            let end = 4 + k - 1;
            let tail = d.subrange(end, d.len() as int);
            assert(tail.take(1)[0] == d[end]);
            assert(d.subrange(4, end).push(d[end]) =~= d.subrange(4, 4 + k as int));
        } else if 4 + k - 1 <= d.len() {
            assert(d.subrange(4 + k - 1, d.len() as int).len() == 0);
        }
    }
}

/// A decoded `Bytes` is exactly the bytes that its u32 length prefix
/// announces, right after the prefix; with fewer bytes available it does
/// not decode. It decodes exactly as `Vec<u8>` does.
pub proof fn lemma_bytes_decode(d: Seq<u8>)
    ensures
        Bytes::wire_decode(d) matches Some((v, n)) ==> u32::wire_decode(d) matches Some((c, _))
            && v.len() == c && n == 4 + v.len() && v == d.subrange(4, n),
        u32::wire_decode(d) matches Some((c, _)) && d.len() < 4 + c ==> Bytes::wire_decode(d) is None,
        Bytes::wire_decode(d) == Vec::<u8>::wire_decode(d),
{
    if d.len() >= 4 {
        lemma_decode_items_bytes(d, le32_value(d.take(4)) as nat);
    }
}

/// The byte arithmetic of splitting a `u32` into two `u16` halves.
proof fn lemma_u32_halves(b: u32)
    ensures
        (((b % 0x1_0000) as u16) % 0x100) as u8 == (b % 0x100) as u8,
        (((b % 0x1_0000) as u16) / 0x100) as u8 == (b / 0x100 % 0x100) as u8,
        (((b / 0x1_0000) as u16) % 0x100) as u8 == (b / 0x1_0000 % 0x100) as u8,
        (((b / 0x1_0000) as u16) / 0x100) as u8 == (b / 0x100_0000) as u8,
{
    let x = b as int;
    assert((x % 0x1_0000) % 0x100 == x % 0x100) by (nonlinear_arith);
    assert((x % 0x1_0000) / 0x100 == x / 0x100 % 0x100) by (nonlinear_arith);
    assert((x / 0x1_0000) / 0x100 == x / 0x100_0000) by (nonlinear_arith);
}

/// The byte arithmetic of splitting a `u64` into two `u32` halves.
proof fn lemma_u64_halves(c: u64)
    ensures
        (((c % 0x1_0000_0000) as u32) % 0x100) as u8 == (c % 0x100) as u8,
        (((c % 0x1_0000_0000) as u32) / 0x100 % 0x100) as u8 == (c / 0x100 % 0x100) as u8,
        (((c % 0x1_0000_0000) as u32) / 0x1_0000 % 0x100) as u8 == (c / 0x1_0000 % 0x100) as u8,
        (((c % 0x1_0000_0000) as u32) / 0x100_0000) as u8 == (c / 0x100_0000 % 0x100) as u8,
        (((c / 0x1_0000_0000) as u32) % 0x100) as u8 == (c / 0x1_0000_0000 % 0x100) as u8,
        (((c / 0x1_0000_0000) as u32) / 0x100 % 0x100) as u8 == (c / 0x100_0000_0000 % 0x100) as u8,
        (((c / 0x1_0000_0000) as u32) / 0x1_0000 % 0x100) as u8 == (c / 0x1_0000_0000_0000
            % 0x100) as u8,
        (((c / 0x1_0000_0000) as u32) / 0x100_0000) as u8 == (c / 0x100_0000_0000_0000) as u8,
{
    let x = c as int;
    let lo = x % 0x1_0000_0000;
    let hi = x / 0x1_0000_0000;
    assert(lo % 0x100 == x % 0x100) by (nonlinear_arith)
        requires
            lo == x % 0x1_0000_0000,
            x >= 0,
    ;
    assert(lo / 0x100 % 0x100 == x / 0x100 % 0x100) by (nonlinear_arith)
        requires
            lo == x % 0x1_0000_0000,
            x >= 0,
    ;
    assert(lo / 0x1_0000 % 0x100 == x / 0x1_0000 % 0x100) by (nonlinear_arith)
        requires
            lo == x % 0x1_0000_0000,
            x >= 0,
    ;
    assert(lo / 0x100_0000 == x / 0x100_0000 % 0x100) by (nonlinear_arith)
        requires
            lo == x % 0x1_0000_0000,
            x >= 0,
    ;
    assert(hi / 0x100 == x / 0x100_0000_0000) by (nonlinear_arith)
        requires
            hi == x / 0x1_0000_0000,
            x >= 0,
    ;
    assert(hi / 0x1_0000 == x / 0x1_0000_0000_0000) by (nonlinear_arith)
        requires
            hi == x / 0x1_0000_0000,
            x >= 0,
    ;
    assert(hi / 0x100_0000 == x / 0x100_0000_0000_0000) by (nonlinear_arith)
        requires
            hi == x / 0x1_0000_0000,
            x >= 0,
    ;
}

/// Integers travel little-endian: a wide unsigned integer is its low half
/// followed by its high half, each encoded as the narrower type, down to
/// single bytes.
pub proof fn lemma_uint_wire_little_endian(a: u16, b: u32, c: u64)
    ensures
        a.wire_bytes() == ((a % 0x100) as u8).wire_bytes() + ((a / 0x100) as u8).wire_bytes(),
        b.wire_bytes() == ((b % 0x1_0000) as u16).wire_bytes() + ((b / 0x1_0000) as u16).wire_bytes(),
        c.wire_bytes() == ((c % 0x1_0000_0000) as u32).wire_bytes() + ((c / 0x1_0000_0000) as u32).wire_bytes(),
{
    assert(a.wire_bytes() =~= ((a % 0x100) as u8).wire_bytes() + ((a / 0x100) as u8).wire_bytes());
    lemma_u32_halves(b);
    assert(b.wire_bytes() =~= ((b % 0x1_0000) as u16).wire_bytes() + ((b / 0x1_0000) as u16).wire_bytes());
    lemma_u64_halves(c);
    assert(c.wire_bytes() =~= ((c % 0x1_0000_0000) as u32).wire_bytes() + ((c / 0x1_0000_0000) as u32).wire_bytes());
}

/// A signed integer travels as the unsigned integer of the same width with
/// the same bits.
pub proof fn lemma_sint_wire_as_unsigned(d: i8, e: i16, f: i32, g: i64)
    ensures
        d.wire_bytes() == (d as u8).wire_bytes(),
        e.wire_bytes() == (e as u16).wire_bytes(),
        f.wire_bytes() == (f as u32).wire_bytes(),
        g.wire_bytes() == (g as u64).wire_bytes(),
{
}

/// A string decodes as the bytes that its length prefix announces would,
/// read as UTF-8: it fails where those bytes fail or are not valid UTF-8.
pub proof fn lemma_string_decode_as_bytes(d: Seq<u8>)
    ensures
        String::wire_decode(d) == (match Bytes::wire_decode(d) {
            Some((b, n)) => if valid_utf8(b) {
                Some((decode_utf8(b), n))
            } else {
                None
            },
            None => None,
        }),
{
}

/// A frame header travels as its version byte, its reserved byte and the
/// code of its message type, then its sequence number and its payload
/// length, each encoded as a `u32`. The message types Request, Response,
/// Push and Error have the codes 0, 1, 2 and 4; any other code stands for
/// itself.
pub proof fn lemma_header_layout(h: FrameHeader, v: u8)
    ensures
        header_bytes(h) == seq![h.version, h.reserved, msg_type_code(h.msg_type)]
            + h.sequence.wire_bytes() + h.payload_len.wire_bytes(),
        header_bytes(h).len() == FRAME_HEADER_SIZE,
        msg_type_code(MsgType::Request) == 0,
        msg_type_code(MsgType::Response) == 1,
        msg_type_code(MsgType::Push) == 2,
        msg_type_code(MsgType::Error) == 4,
        msg_type_code(MsgType::Other(v)) == v,
        msg_type_of(v) is Other <==> (v != 0 && v != 1 && v != 2 && v != 4),
{
}

/// In the drain format each frame is written as `Bytes` writes it, one
/// after the other in order, behind the frame count written as a `u32`; an
/// empty buffer drains to no bytes at all.
pub proof fn lemma_drain_layout(frames: Seq<Seq<u8>>, v: Vec<u8>)
    ensures
        v@.len() <= u32::MAX ==> frame_record(v@) == Bytes(v).wire_bytes(),
        records(frames.push(v@)) == records(frames) + frame_record(v@),
        frames.len() == 0 ==> drain_wire(frames) == Seq::<u8>::empty(),
        frames.len() > 0 ==> drain_wire(frames) == (frames.len() as u32).wire_bytes() + records(
            frames,
        ),
{
    assert(frames.push(v@).drop_last() =~= frames);
}

} // verus!
