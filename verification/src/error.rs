//! The error type shared by the codecs and the key types.

use vstd::prelude::*;

verus! {

/// What went wrong while a frame was written or read.
#[derive(Debug, Clone, Copy, PartialEq, Eq, Structural)]
pub enum ErrorKind {
    /// The input ends before the part being read is complete; `missing` is
    /// the number of further bytes that part needs.
    ShortRead { missing: u64 },
    /// The value tag is none of the thirteen known ones.
    UnknownValueTag,
    /// The packet tag is none of the six known ones.
    UnknownPacketTag,
    /// A string payload is not valid UTF-8.
    InvalidUtf8,
    /// A boolean payload is neither 0 nor 1.
    InvalidBoolean,
    /// A key holds bytes that its flavor does not accept.
    InvalidKey,
    /// A key is longer than the single length byte of the wire format allows.
    KeyTooLong,
    /// A key of a fixed length was given another number of bytes.
    InvalidKeyLength,
    /// An `Error` or `RegisterSchema` packet carries a value that is not a string.
    InvalidPayload,
    /// A blob or string is longer than its 32-bit length prefix allows.
    ValueTooLong,
    /// Anything else.
    Other,
}

/// An error with a kind, a message for people and, where one error was caused
/// by another, the text of the cause.
#[derive(Debug, Clone, PartialEq, Eq)]
pub struct Error {
    pub kind: ErrorKind,
    pub message: String,
    pub inner: Option<String>,
}

impl ErrorKind {
    /// The message that goes with each kind.
    pub open spec fn text(self) -> Seq<char> {
        match self {
            ErrorKind::ShortRead { .. } => "Unexpected end of input"@,
            ErrorKind::UnknownValueTag => "Invalid value-type"@,
            ErrorKind::UnknownPacketTag => "Invalid packet-type"@,
            ErrorKind::InvalidUtf8 => "UTF8-error"@,
            ErrorKind::InvalidBoolean => "Invalid boolean"@,
            ErrorKind::InvalidKey => "Invalid key. Only ascii-characters allowed"@,
            ErrorKind::KeyTooLong => "Invalid key. At most 255 bytes allowed"@,
            ErrorKind::InvalidKeyLength => "Invalid key length"@,
            ErrorKind::InvalidPayload => "Invalid payload. Only a string is allowed"@,
            ErrorKind::ValueTooLong => "Invalid value. Payload too long"@,
            ErrorKind::Other => "Error"@,
        }
    }

    /// The message of this kind as an owned string.
    pub fn describe(self) -> (message: String)
        ensures
            message@ == self.text(),
    {
        match self {
            ErrorKind::ShortRead { .. } => "Unexpected end of input".to_owned(),
            ErrorKind::UnknownValueTag => "Invalid value-type".to_owned(),
            ErrorKind::UnknownPacketTag => "Invalid packet-type".to_owned(),
            ErrorKind::InvalidUtf8 => "UTF8-error".to_owned(),
            ErrorKind::InvalidBoolean => "Invalid boolean".to_owned(),
            ErrorKind::InvalidKey => "Invalid key. Only ascii-characters allowed".to_owned(),
            ErrorKind::KeyTooLong => "Invalid key. At most 255 bytes allowed".to_owned(),
            ErrorKind::InvalidKeyLength => "Invalid key length".to_owned(),
            ErrorKind::InvalidPayload => "Invalid payload. Only a string is allowed".to_owned(),
            ErrorKind::ValueTooLong => "Invalid value. Payload too long".to_owned(),
            ErrorKind::Other => "Error".to_owned(),
        }
    }
}

impl Error {
    /// Whether this is the error that `of(kind)` builds.
    pub open spec fn is_of(&self, kind: ErrorKind) -> bool {
        &&& self.kind == kind
        &&& self.message@ == kind.text()
        &&& self.inner is None
    }

    /// An error of kind `Other` with the given message and no cause.
    pub fn new(message: &str) -> (e: Error)
        ensures
            e.kind == ErrorKind::Other,
            e.message@ == message@,
            e.inner is None,
    {
        Error { kind: ErrorKind::Other, message: message.to_owned(), inner: None }
    }

    /// An error of kind `Other` with the given message and the text of its cause.
    pub fn new_with_inner(message: &str, inner: String) -> (e: Error)
        ensures
            e.kind == ErrorKind::Other,
            e.message@ == message@,
            e.inner == Some(inner),
    {
        Error { kind: ErrorKind::Other, message: message.to_owned(), inner: Some(inner) }
    }

    /// The error of the given kind, with that kind's message and no cause.
    pub fn of(kind: ErrorKind) -> (e: Error)
        ensures
            e.is_of(kind),
    {
        Error { kind, message: kind.describe(), inner: None }
    }
}

} // verus!
