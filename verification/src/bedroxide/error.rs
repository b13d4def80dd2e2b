//! The errors of the Bedrock server.

use vstd::prelude::*;

verus! {

/// The possible errors.
#[derive(Debug)]
pub enum Error {
    /// A command could not be sent; holds the reason.
    CommandError(String),
    /// An I/O error occurred; holds its description.
    IoError(String),
    /// Bytes that should be UTF-8 text are not.
    Utf8Error,
    /// A RakNet error occurred.
    RakNetError(crate::error::Error),
    /// The VarInt number was too large to fit into the desired type.
    VarIntTooLarge,
    /// Not all bytes could be read.
    NotAllBytesRead,
    /// A RakNet packet meant for the Bedrock handler was empty.
    EmptyPacket,
    /// A RakNet packet meant for the Bedrock handler did not start with
    /// the game packet ID `0xFE`; holds the ID it started with.
    InvalidMessageId(u8),
}

impl vstd::std_specs::convert::FromSpecImpl<crate::error::Error> for Error {
    open spec fn obeys_from_spec() -> bool {
        true
    }

    open spec fn from_spec(v: crate::error::Error) -> Error {
        Error::RakNetError(v)
    }
}

impl From<crate::error::Error> for Error {
    fn from(error: crate::error::Error) -> (r: Error) {
        Error::RakNetError(error)
    }
}

} // verus!
