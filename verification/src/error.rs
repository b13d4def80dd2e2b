//! The errors reported while reading and writing RakNet data.

use vstd::prelude::*;

verus! {

/// The possible errors.
#[derive(Clone, Copy, Debug, PartialEq, Eq, Structural)]
pub enum Error {
    /// An error happened while reading.
    ReadError(ReadError),
    /// An error happened while writing.
    WriteError(WriteError),
    /// An unknown message ID was received.
    UnknownMessageId(u8),
}

/// Errors while reading.
#[derive(Clone, Copy, Debug, PartialEq, Eq, Structural)]
pub enum ReadError {
    /// The read value is not the same as the compare value.
    CompareFailed,
    /// The header was invalid.
    InvalidHeader,
    /// The IP version read was not 4 or 6.
    InvalidIpVersion,
    /// The read Offline Message ID was invalid.
    InvalidOfflineMessageId,
    /// Not all bytes could be read; holds the number of bytes that were left.
    NotAllBytesRead(usize),
    /// A string was not UTF-8.
    InvalidString,
    /// The read zero padding was longer than allowed.
    TooLongZeroPadding,
    /// A split packet part had an index beyond the part count.
    SplitPacketIndexOutOfRange,
    /// A split packet part with this index was already received.
    DuplicateSplitPacketIndex,
}

/// Errors while writing.
#[derive(Clone, Copy, Debug, PartialEq, Eq, Structural)]
pub enum WriteError {
    /// The header was invalid.
    InvalidHeader,
    /// Not all bytes could be written.
    NotAllBytesWritten(usize),
    /// Payload was too large.
    PayloadTooLarge,
    /// There were more ack/nack ranges in a
    /// datagram than what can fit into an u16.
    TooManyRanges,
}

impl vstd::std_specs::convert::FromSpecImpl<ReadError> for Error {
    open spec fn obeys_from_spec() -> bool {
        true
    }

    open spec fn from_spec(v: ReadError) -> Error {
        Error::ReadError(v)
    }
}

impl From<ReadError> for Error {
    fn from(error: ReadError) -> (r: Error) {
        Error::ReadError(error)
    }
}

impl vstd::std_specs::convert::FromSpecImpl<WriteError> for Error {
    open spec fn obeys_from_spec() -> bool {
        true
    }

    open spec fn from_spec(v: WriteError) -> Error {
        Error::WriteError(v)
    }
}

impl From<WriteError> for Error {
    fn from(error: WriteError) -> (r: Error) {
        Error::WriteError(error)
    }
}

impl Error {
    /// A human-readable description of the error.
    pub fn description(&self) -> (r: &'static str)
        ensures
            r@ == match self {
                Error::ReadError(_) => "Error while reading"@,
                Error::WriteError(_) => "Error while writing"@,
                Error::UnknownMessageId(_) => "Received an unknown message ID"@,
            },
    {
        match self {
            Error::ReadError(_) => "Error while reading",
            Error::WriteError(_) => "Error while writing",
            Error::UnknownMessageId(_) => "Received an unknown message ID",
        }
    }
}

} // verus!
