//! Protocol constants.

use vstd::prelude::*;

verus! {

/// The magic sequence that marks every offline (unconnected) message.
pub const OFFLINE_MESSAGE_ID: [u8; 16] = [
    0x00, 0xFF, 0xFF, 0x00, 0xFE, 0xFE, 0xFE, 0xFE, 0xFD, 0xFD, 0xFD, 0xFD, 0x12, 0x34, 0x56, 0x78,
];

/// The RakNet protocol version spoken by this library.
pub const RAKNET_PROTOCOL_VERSION: u8 = 10;

/// The size of the IP and UDP headers in front of every datagram.
pub const UDP_HEADER_SIZE: u16 = 28;

/// The largest MTU that is negotiated.
pub const MAXIMUM_MTU_SIZE: u16 = 1492;

/// The number of ordering channels of a connection.
pub const NUMBER_OF_ORDERING_CHANNELS: u8 = 32;

/// The number of send priorities.
pub const NUMBER_OF_PRIORITIES: usize = 4;

/// How long, in nanoseconds (10 ms), acknowledgements are collected
/// before they are sent.
pub const TIME_BEFORE_SENDING_ACKS: u64 = 10_000_000;

/// The largest header of an ACK datagram: bit flags and the AS field.
pub const MAX_ACK_DATAGRAM_HEADER_SIZE: usize = 5;

/// The largest header of a NACK datagram: bit flags.
pub const MAX_NACK_DATAGRAM_HEADER_SIZE: usize = 1;

/// The number of internal addresses sent in a connection handshake.
pub const MAX_NUMBER_OF_INTERNAL_IDS: usize = 10;

} // verus!
