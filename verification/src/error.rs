//! The ways in which encoding or decoding a frame can fail.

use vstd::prelude::*;

verus! {

/// Why a frame or a length prefix was refused. Every failure is fatal to the
/// direction it occurs in.
#[derive(Clone, Copy, Debug, PartialEq, Eq, Structural)]
pub enum CtcpError {
    /// The frame to encode is longer than 65 536 bytes.
    PayloadTooLarge,
    /// The length to put in a prefix does not fit its three digits.
    PayloadTooLong,
    /// The length in a prefix is zero.
    PayloadEmpty,
    /// Fewer bytes than a prefix has.
    PrefixShort,
    /// The frame ends before its announced payload does.
    FrameShort,
    /// The frame goes on after its announced payload.
    FrameLong,
    /// A byte outside `0x20..=0x7e`.
    BadSymbol,
    /// A high digit without a valid low digit, or a pair above `0xff`.
    BadPair,
    /// The verification tail of a long prefix does not match.
    BadChecksum,
    /// A length field that does not have the digits its place requires.
    BadLengthDigits,
    /// The decoded body is not as long as its header says.
    BadBodyLength,
}

/// The two classes that failures are reported under.
#[derive(Clone, Copy, Debug, PartialEq, Eq, Structural)]
pub enum ErrorKind {
    /// The input is malformed.
    InvalidData,
    /// The input ended too early.
    UnexpectedEof,
}

impl CtcpError {
    /// The class of a failure: truncated input is `UnexpectedEof`, everything
    /// else `InvalidData`.
    pub open spec fn kind_of(self) -> ErrorKind {
        match self {
            CtcpError::PrefixShort | CtcpError::FrameShort => ErrorKind::UnexpectedEof,
            _ => ErrorKind::InvalidData,
        }
    }

    /// A short description of a failure.
    pub open spec fn message_of(self) -> Seq<char> {
        match self {
            CtcpError::PayloadTooLarge => "frame is longer than 65536 bytes"@,
            CtcpError::PayloadTooLong => "payload length does not fit the prefix"@,
            CtcpError::PayloadEmpty => "payload length is zero"@,
            CtcpError::PrefixShort => "prefix is incomplete"@,
            CtcpError::FrameShort => "frame is shorter than announced"@,
            CtcpError::FrameLong => "frame is longer than announced"@,
            CtcpError::BadSymbol => "byte is not printable"@,
            CtcpError::BadPair => "symbol pair is malformed"@,
            CtcpError::BadChecksum => "prefix verification failed"@,
            CtcpError::BadLengthDigits => "length field has the wrong number of digits"@,
            CtcpError::BadBodyLength => "body length differs from its header"@,
        }
    }

    /// A short description of this failure.
    pub fn message(&self) -> (m: &'static str)
        ensures
            m@ == self.message_of(),
    {
        match self {
            CtcpError::PayloadTooLarge => "frame is longer than 65536 bytes",
            CtcpError::PayloadTooLong => "payload length does not fit the prefix",
            CtcpError::PayloadEmpty => "payload length is zero",
            CtcpError::PrefixShort => "prefix is incomplete",
            CtcpError::FrameShort => "frame is shorter than announced",
            CtcpError::FrameLong => "frame is longer than announced",
            CtcpError::BadSymbol => "byte is not printable",
            CtcpError::BadPair => "symbol pair is malformed",
            CtcpError::BadChecksum => "prefix verification failed",
            CtcpError::BadLengthDigits => "length field has the wrong number of digits",
            CtcpError::BadBodyLength => "body length differs from its header",
        }
    }

    /// The class of this failure.
    pub fn kind(&self) -> (k: ErrorKind)
        ensures
            k == self.kind_of(),
    {
        match self {
            CtcpError::PrefixShort => ErrorKind::UnexpectedEof,
            CtcpError::FrameShort => ErrorKind::UnexpectedEof,
            _ => ErrorKind::InvalidData,
        }
    }
}

} // verus!
