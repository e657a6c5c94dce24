//! Error type of the transport: authentication, serialisation, dispatch,
//! buffering and binary framing failures.

use vstd::prelude::*;
use vstd::string::StringExecFns;

verus! {

/// Unified error type for all operations.
#[derive(Debug)]
pub enum Error {
    /// The client failed token authentication.
    AuthFailed,
    /// JSON serialisation / deserialisation error.
    Serialize(serde_json::Error),
    /// An unrecognised command name was received.
    UnknownCommand(String),
    /// An unrecognised channel name was received.
    UnknownChannel(String),
    /// A binary frame could not be decoded.
    DecodeFailed,
    /// A payload exceeds the maximum encodable size (u32::MAX bytes).
    PayloadTooLarge(usize),
    /// A handler reported an error; the text is its message.
    Handler(String),
    /// A reliable channel's byte budget would be exceeded.
    ChannelFull,
}

/// The character of a decimal digit.
pub open spec fn digit_char(d: nat) -> char {
    ((0x30 + d) as u8) as char
}

/// The decimal representation of `n`, without leading zeros.
pub open spec fn decimal(n: nat) -> Seq<char>
    decreases n,
{
    if n < 10 {
        seq![digit_char(n)]
    } else {
        decimal(n / 10).push(digit_char(n % 10))
    }
}

/// The start of the text of a serialisation error; the JSON error's own
/// message follows it.
pub open spec fn serialize_prefix() -> Seq<char> {
    "serialization error: "@
}

/// The human-readable text of an error. For [`Error::Serialize`] this is the
/// fixed prefix that the JSON error's message follows.
pub open spec fn error_text(e: Error) -> Seq<char> {
    match e {
        Error::AuthFailed => "authentication failed"@,
        Error::Serialize(_) => serialize_prefix(),
        Error::UnknownCommand(name) => "unknown command: "@ + name@,
        Error::UnknownChannel(name) => "unknown channel: "@ + name@,
        Error::DecodeFailed => "frame decode failed"@,
        Error::PayloadTooLarge(len) => "payload too large: "@ + decimal(len as nat)
            + " bytes exceeds u32::MAX"@,
        Error::Handler(msg) => "handler error: "@ + msg@,
        Error::ChannelFull => "channel full: byte limit reached"@,
    }
}

/// The text of a JSON error.
///
/// Trusted: wraps the `Display` implementation of `serde_json::Error`; nothing
/// is stated of the text it produces.
#[verifier::external_body]
fn json_error_message(e: &serde_json::Error) -> String {
    e.to_string()
}

/// Appends the decimal representation of `n` to `s`.
fn push_decimal(s: &mut String, n: usize)
    ensures
        final(s)@ == old(s)@ + decimal(n as nat),
    decreases n,
{
    if n >= 10 {
        push_decimal(s, n / 10);
    }
    let d = (n % 10) as u8;
    s.push((0x30u8 + d) as char);
    assert(s@ =~= old(s)@ + decimal(n as nat));
}

impl Error {
    /// The error's human-readable text (what the original's `Display` prints).
    pub fn to_string(&self) -> (r: String)
        ensures
            r@ == (match *self {
                Error::Serialize(_) => r@,
                _ => error_text(*self),
            }),
            *self is Serialize ==> r@.len() >= serialize_prefix().len() && r@.take(
                serialize_prefix().len() as int,
            ) == serialize_prefix(),
    {
        match self {
            Error::AuthFailed => String::from_str("authentication failed"),
            Error::Serialize(e) => {
                let mut s = String::from_str("serialization error: ");
                let m = json_error_message(e);
                s.append(m.as_str());
                proof {
                    assert(s@.take(serialize_prefix().len() as int) =~= serialize_prefix());
                }
                s
            },
            Error::UnknownCommand(name) => {
                let mut s = String::from_str("unknown command: ");
                s.append(name.as_str());
                s
            },
            Error::UnknownChannel(name) => {
                let mut s = String::from_str("unknown channel: ");
                s.append(name.as_str());
                s
            },
            Error::DecodeFailed => String::from_str("frame decode failed"),
            Error::PayloadTooLarge(len) => {
                let mut s = String::from_str("payload too large: ");
                push_decimal(&mut s, *len);
                s.append(" bytes exceeds u32::MAX");
                s
            },
            Error::Handler(msg) => {
                let mut s = String::from_str("handler error: ");
                s.append(msg.as_str());
                s
            },
            Error::ChannelFull => String::from_str("channel full: byte limit reached"),
        }
    }

    /// The lower-level error this one wraps: the JSON error of a
    /// [`Error::Serialize`], none for the others.
    pub fn source(&self) -> (r: Option<&serde_json::Error>)
        ensures
            r is Some <==> *self is Serialize,
            r matches Some(inner) ==> *self == Error::Serialize(*inner),
    {
        match self {
            Error::Serialize(e) => Some(e),
            _ => None,
        }
    }
}

impl From<serde_json::Error> for Error {
    fn from(e: serde_json::Error) -> (r: Self) {
        Error::Serialize(e)
    }
}

impl vstd::std_specs::convert::FromSpecImpl<serde_json::Error> for Error {
    open spec fn obeys_from_spec() -> bool {
        true
    }

    open spec fn from_spec(e: serde_json::Error) -> Self {
        Error::Serialize(e)
    }
}

} // verus!
