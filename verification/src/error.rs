//! The error kinds that the dispatch contract and the protocols layered on it
//! can surface. Every failure is reported to the immediate caller as one of
//! these values; nothing in this crate recovers an error silently.

use vstd::prelude::*;

verus! {

/// One failure kind of the communication contract.
#[derive(Clone, Copy, Debug, PartialEq, Eq, Structural)]
pub enum CodecError {
    /// The payload could not be decoded.
    MalformedPayload,
    /// The operation name is not part of the capability's descriptor.
    UnknownOperation,
    /// A transfer chunk arrived with a sequence number other than the next
    /// expected one, or for a transfer that was never started.
    OutOfSequence,
    /// A transfer chunk does not fit the sizes the transfer was started with.
    SizeMismatch,
    /// A dispatcher was invoked before a real dispatcher was configured.
    BadDispatch,
    /// The provider rejected an otherwise well-formed operation.
    OperationRejected,
    /// A request timed out before a reply arrived.
    Timeout,
    /// The backing system behind the provider failed.
    DownstreamFailure,
}

impl CodecError {
    /// A short, stable label for the error kind.
    pub fn describe(&self) -> (s: &'static str)
        ensures
            s@ == self.describe_spec(),
    {
        match self {
            CodecError::MalformedPayload => "malformed payload",
            CodecError::UnknownOperation => "unknown operation",
            CodecError::OutOfSequence => "chunk out of sequence",
            CodecError::SizeMismatch => "transfer size mismatch",
            CodecError::BadDispatch => "dispatch before configuration",
            CodecError::OperationRejected => "operation rejected",
            CodecError::Timeout => "request timed out",
            CodecError::DownstreamFailure => "downstream failure",
        }
    }

    pub open spec fn describe_spec(&self) -> Seq<char> {
        match self {
            CodecError::MalformedPayload => "malformed payload"@,
            CodecError::UnknownOperation => "unknown operation"@,
            CodecError::OutOfSequence => "chunk out of sequence"@,
            CodecError::SizeMismatch => "transfer size mismatch"@,
            CodecError::BadDispatch => "dispatch before configuration"@,
            CodecError::OperationRejected => "operation rejected"@,
            CodecError::Timeout => "request timed out"@,
            CodecError::DownstreamFailure => "downstream failure"@,
        }
    }
}

} // verus!
