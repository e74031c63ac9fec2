//! The recoverable errors of the codec.
use vstd::prelude::*;

verus! {

/// Why a buffer does not hold a well-formed message.
#[derive(Clone, Copy, Debug, PartialEq, Eq, Structural)]
pub enum InvalidReason {
    IncorrectMessageType,
    IncorrectStatus,
    NoBeginByte,
    NoEndByte,
    InvalidPacketSize,
    InconsistentGroups,
    InconsistentStreams,
    ExpectedBegin,
    ExpectedContinue,
    ExpectedEnd,
    ExpectedComplete,
}

impl InvalidReason {
    /// A short diagnostic that names the failed check.
    pub fn message(&self) -> (r: &'static str) {
        match self {
            InvalidReason::IncorrectMessageType => "Incorrect ump message type",
            InvalidReason::IncorrectStatus => "Incorrect message status",
            InvalidReason::NoBeginByte => "Sysex messages should begin 0xF0",
            InvalidReason::NoEndByte => "Sysex messages should end 0xF7",
            InvalidReason::InvalidPacketSize => "Packet size field out of range",
            InvalidReason::InconsistentGroups => "Inconsistent groups across packets",
            InvalidReason::InconsistentStreams => "Inconsistent stream ids across packets",
            InvalidReason::ExpectedBegin => "Expected begin status",
            InvalidReason::ExpectedContinue => "Expected continue status",
            InvalidReason::ExpectedEnd => "Expected end status",
            InvalidReason::ExpectedComplete => "Expected complete status",
        }
    }
}

#[derive(Clone, Copy, Debug, PartialEq, Eq, Structural)]
pub enum Error {
    /// The contents do not form the expected message.
    InvalidData(InvalidReason),
    /// The storage is too small for the operation.
    BufferOverflow,
}

/// A capacity-bounded resize could not be granted in full.
#[derive(Clone, Copy, Debug, PartialEq, Eq, Structural)]
pub struct BufferOverflow;

} // verus!
