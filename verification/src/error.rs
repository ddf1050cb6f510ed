//! Errors reported while framing, parsing and decoding wire data.

use vstd::prelude::*;

verus! {

/// Reasons a datagram, header or control envelope is rejected.
#[derive(Clone, Copy, Debug, PartialEq, Eq, Structural)]
pub enum WireError {
    /// Fewer bytes than the fixed header.
    BufferTooSmall,
    /// The first four bytes are not the LTP1 magic.
    BadMagic,
    /// The version nibble is not the supported version.
    UnsupportedVersion,
    /// The header length nibble is below the fixed header size.
    HdrLenTooSmall,
    /// The buffer ends inside the declared header.
    IncompleteHeader,
    /// Unknown priority discriminant.
    BadPriority,
    /// Unknown payload type discriminant.
    BadPayloadType,
    /// The datagram is shorter than header plus `payload_len`.
    DatagramTooShort,
    /// The payload handed to the framer does not match `payload_len`.
    PayloadLenMismatch,
    /// A control envelope shorter than its prefix.
    EnvelopeTooShort,
    /// A control envelope whose inner length runs past the buffer.
    EnvelopeInnerLenExceeds,
}

impl WireError {
    /// Human-readable description of the error.
    pub fn message(&self) -> (r: &'static str)
        ensures
            *self == WireError::BufferTooSmall ==> r@ == "buffer too small"@,
            *self == WireError::BadMagic ==> r@ == "bad magic"@,
            *self == WireError::UnsupportedVersion ==> r@ == "unsupported version"@,
            *self == WireError::HdrLenTooSmall ==> r@ == "hdr_len_dw too small"@,
            *self == WireError::IncompleteHeader ==> r@ == "incomplete header"@,
            *self == WireError::BadPriority ==> r@ == "bad priority"@,
            *self == WireError::BadPayloadType ==> r@ == "bad payload_type"@,
            *self == WireError::DatagramTooShort ==> r@ == "datagram shorter than header+payload_len"@,
            *self == WireError::PayloadLenMismatch ==> r@ == "payload_len mismatch"@,
            *self == WireError::EnvelopeTooShort ==> r@ == "control envelope too short"@,
            *self == WireError::EnvelopeInnerLenExceeds ==> r@ == "control inner_len exceeds buffer"@,
    {
        match self {
            WireError::BufferTooSmall => "buffer too small",
            WireError::BadMagic => "bad magic",
            WireError::UnsupportedVersion => "unsupported version",
            WireError::HdrLenTooSmall => "hdr_len_dw too small",
            WireError::IncompleteHeader => "incomplete header",
            WireError::BadPriority => "bad priority",
            WireError::BadPayloadType => "bad payload_type",
            WireError::DatagramTooShort => "datagram shorter than header+payload_len",
            WireError::PayloadLenMismatch => "payload_len mismatch",
            WireError::EnvelopeTooShort => "control envelope too short",
            WireError::EnvelopeInnerLenExceeds => "control inner_len exceeds buffer",
        }
    }
}

} // verus!
