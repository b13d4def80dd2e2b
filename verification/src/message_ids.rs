//! The identifiers in the first byte of RakNet messages.

use vstd::prelude::*;

use crate::error::Error;

verus! {

/// The known message identifiers.
#[derive(Clone, Copy, Debug, PartialEq, Eq, Structural)]
pub enum MessageId {
    /// Message `0x00`.
    ConnectedPing,
    /// Message `0x01`.
    UnconnectedPing,
    /// Message `0x02`.
    UnconnectedPingOpenConnections,
    /// Message `0x03`.
    ConnectedPong,
    /// Message `0x04`.
    DetectLostConnections,
    /// Message `0x05`.
    OpenConnectionRequest1,
    /// Message `0x06`.
    OpenConnectionReply1,
    /// Message `0x07`.
    OpenConnectionRequest2,
    /// Message `0x08`.
    OpenConnectionReply2,
    /// Message `0x09`.
    ConnectionRequest,
    /// Message `0x0D`.
    OutOfBandInternal,
    /// Message `0x10`.
    ConnectionRequestAccepted,
    /// Message `0x11`.
    ConnectionAttemptFailed,
    /// Message `0x12`.
    AlreadyConnected,
    /// Message `0x13`.
    NewIncomingConnection,
    /// Message `0x14`.
    NoFreeIncomingConnections,
    /// Message `0x15`.
    DisconnectionNotification,
    /// Message `0x16`.
    ConnectionLost,
    /// Message `0x17`.
    ConnectionBanned,
    /// Message `0x18`.
    InvalidPassword,
    /// Message `0x19`.
    IncompatibleProtocolVersion,
    /// Message `0x1A`.
    IpRecentlyConnected,
    /// Message `0x1C`.
    UnconnectedPong,
}

/// The byte that identifies each message.
pub open spec fn message_id_byte(id: MessageId) -> u8 {
    match id {
        MessageId::ConnectedPing => 0x00,
        MessageId::UnconnectedPing => 0x01,
        MessageId::UnconnectedPingOpenConnections => 0x02,
        MessageId::ConnectedPong => 0x03,
        MessageId::DetectLostConnections => 0x04,
        MessageId::OpenConnectionRequest1 => 0x05,
        MessageId::OpenConnectionReply1 => 0x06,
        MessageId::OpenConnectionRequest2 => 0x07,
        MessageId::OpenConnectionReply2 => 0x08,
        MessageId::ConnectionRequest => 0x09,
        MessageId::OutOfBandInternal => 0x0D,
        MessageId::ConnectionRequestAccepted => 0x10,
        MessageId::ConnectionAttemptFailed => 0x11,
        MessageId::AlreadyConnected => 0x12,
        MessageId::NewIncomingConnection => 0x13,
        MessageId::NoFreeIncomingConnections => 0x14,
        MessageId::DisconnectionNotification => 0x15,
        MessageId::ConnectionLost => 0x16,
        MessageId::ConnectionBanned => 0x17,
        MessageId::InvalidPassword => 0x18,
        MessageId::IncompatibleProtocolVersion => 0x19,
        MessageId::IpRecentlyConnected => 0x1A,
        MessageId::UnconnectedPong => 0x1C,
    }
}

/// The message whose identifier is `b`, if any.
pub open spec fn message_id_of(b: u8) -> Option<MessageId> {
    if b == 0x00 {
        Some(MessageId::ConnectedPing)
    } else if b == 0x01 {
        Some(MessageId::UnconnectedPing)
    } else if b == 0x02 {
        Some(MessageId::UnconnectedPingOpenConnections)
    } else if b == 0x03 {
        Some(MessageId::ConnectedPong)
    } else if b == 0x04 {
        Some(MessageId::DetectLostConnections)
    } else if b == 0x05 {
        Some(MessageId::OpenConnectionRequest1)
    } else if b == 0x06 {
        Some(MessageId::OpenConnectionReply1)
    } else if b == 0x07 {
        Some(MessageId::OpenConnectionRequest2)
    } else if b == 0x08 {
        Some(MessageId::OpenConnectionReply2)
    } else if b == 0x09 {
        Some(MessageId::ConnectionRequest)
    } else if b == 0x0D {
        Some(MessageId::OutOfBandInternal)
    } else if b == 0x10 {
        Some(MessageId::ConnectionRequestAccepted)
    } else if b == 0x11 {
        Some(MessageId::ConnectionAttemptFailed)
    } else if b == 0x12 {
        Some(MessageId::AlreadyConnected)
    } else if b == 0x13 {
        Some(MessageId::NewIncomingConnection)
    } else if b == 0x14 {
        Some(MessageId::NoFreeIncomingConnections)
    } else if b == 0x15 {
        Some(MessageId::DisconnectionNotification)
    } else if b == 0x16 {
        Some(MessageId::ConnectionLost)
    } else if b == 0x17 {
        Some(MessageId::ConnectionBanned)
    } else if b == 0x18 {
        Some(MessageId::InvalidPassword)
    } else if b == 0x19 {
        Some(MessageId::IncompatibleProtocolVersion)
    } else if b == 0x1A {
        Some(MessageId::IpRecentlyConnected)
    } else if b == 0x1C {
        Some(MessageId::UnconnectedPong)
    } else {
        None
    }
}

/// Distinct messages have distinct identifier bytes, and every byte that
/// identifies a message is read back as that message.
pub proof fn lemma_message_id_roundtrip(id: MessageId)
    ensures
        message_id_of(message_id_byte(id)) == Some(id),
{
}

/// The RakNet wire byte of each message identifier: every identifier is
/// written as its protocol byte and that byte is read as the identifier,
/// and no other byte names a message.
pub proof fn lemma_message_id_wire_bytes(b: u8)
    ensures
        message_id_byte(MessageId::ConnectedPing) == 0x00u8,
        message_id_of(0x00u8) == Some(MessageId::ConnectedPing),
        message_id_byte(MessageId::UnconnectedPing) == 0x01u8,
        message_id_of(0x01u8) == Some(MessageId::UnconnectedPing),
        message_id_byte(MessageId::UnconnectedPingOpenConnections) == 0x02u8,
        message_id_of(0x02u8) == Some(MessageId::UnconnectedPingOpenConnections),
        message_id_byte(MessageId::ConnectedPong) == 0x03u8,
        message_id_of(0x03u8) == Some(MessageId::ConnectedPong),
        message_id_byte(MessageId::DetectLostConnections) == 0x04u8,
        message_id_of(0x04u8) == Some(MessageId::DetectLostConnections),
        message_id_byte(MessageId::OpenConnectionRequest1) == 0x05u8,
        message_id_of(0x05u8) == Some(MessageId::OpenConnectionRequest1),
        message_id_byte(MessageId::OpenConnectionReply1) == 0x06u8,
        message_id_of(0x06u8) == Some(MessageId::OpenConnectionReply1),
        message_id_byte(MessageId::OpenConnectionRequest2) == 0x07u8,
        message_id_of(0x07u8) == Some(MessageId::OpenConnectionRequest2),
        message_id_byte(MessageId::OpenConnectionReply2) == 0x08u8,
        message_id_of(0x08u8) == Some(MessageId::OpenConnectionReply2),
        message_id_byte(MessageId::ConnectionRequest) == 0x09u8,
        message_id_of(0x09u8) == Some(MessageId::ConnectionRequest),
        message_id_byte(MessageId::OutOfBandInternal) == 0x0Du8,
        message_id_of(0x0Du8) == Some(MessageId::OutOfBandInternal),
        message_id_byte(MessageId::ConnectionRequestAccepted) == 0x10u8,
        message_id_of(0x10u8) == Some(MessageId::ConnectionRequestAccepted),
        message_id_byte(MessageId::ConnectionAttemptFailed) == 0x11u8,
        message_id_of(0x11u8) == Some(MessageId::ConnectionAttemptFailed),
        message_id_byte(MessageId::AlreadyConnected) == 0x12u8,
        message_id_of(0x12u8) == Some(MessageId::AlreadyConnected),
        message_id_byte(MessageId::NewIncomingConnection) == 0x13u8,
        message_id_of(0x13u8) == Some(MessageId::NewIncomingConnection),
        message_id_byte(MessageId::NoFreeIncomingConnections) == 0x14u8,
        message_id_of(0x14u8) == Some(MessageId::NoFreeIncomingConnections),
        message_id_byte(MessageId::DisconnectionNotification) == 0x15u8,
        message_id_of(0x15u8) == Some(MessageId::DisconnectionNotification),
        message_id_byte(MessageId::ConnectionLost) == 0x16u8,
        message_id_of(0x16u8) == Some(MessageId::ConnectionLost),
        message_id_byte(MessageId::ConnectionBanned) == 0x17u8,
        message_id_of(0x17u8) == Some(MessageId::ConnectionBanned),
        message_id_byte(MessageId::InvalidPassword) == 0x18u8,
        message_id_of(0x18u8) == Some(MessageId::InvalidPassword),
        message_id_byte(MessageId::IncompatibleProtocolVersion) == 0x19u8,
        message_id_of(0x19u8) == Some(MessageId::IncompatibleProtocolVersion),
        message_id_byte(MessageId::IpRecentlyConnected) == 0x1Au8,
        message_id_of(0x1Au8) == Some(MessageId::IpRecentlyConnected),
        message_id_byte(MessageId::UnconnectedPong) == 0x1Cu8,
        message_id_of(0x1Cu8) == Some(MessageId::UnconnectedPong),
        b != 0x00u8 && b != 0x01u8 && b != 0x02u8 && b != 0x03u8 && b != 0x04u8 && b != 0x05u8 && b != 0x06u8 && b != 0x07u8 && b != 0x08u8 && b != 0x09u8 && b != 0x0Du8 && b != 0x10u8 && b != 0x11u8 && b != 0x12u8 && b != 0x13u8 && b != 0x14u8 && b != 0x15u8 && b != 0x16u8 && b != 0x17u8 && b != 0x18u8 && b != 0x19u8 && b != 0x1Au8 && b != 0x1Cu8 ==> message_id_of(b) is None,
{
}

impl vstd::std_specs::convert::FromSpecImpl<MessageId> for u8 {
    open spec fn obeys_from_spec() -> bool {
        true
    }

    open spec fn from_spec(v: MessageId) -> u8 {
        message_id_byte(v)
    }
}

impl From<MessageId> for u8 {
    fn from(message_id: MessageId) -> (r: u8) {
        match message_id {
            MessageId::ConnectedPing => 0x00,
            MessageId::UnconnectedPing => 0x01,
            MessageId::UnconnectedPingOpenConnections => 0x02,
            MessageId::ConnectedPong => 0x03,
            MessageId::DetectLostConnections => 0x04,
            MessageId::OpenConnectionRequest1 => 0x05,
            MessageId::OpenConnectionReply1 => 0x06,
            MessageId::OpenConnectionRequest2 => 0x07,
            MessageId::OpenConnectionReply2 => 0x08,
            MessageId::ConnectionRequest => 0x09,
            MessageId::OutOfBandInternal => 0x0D,
            MessageId::ConnectionRequestAccepted => 0x10,
            MessageId::ConnectionAttemptFailed => 0x11,
            MessageId::AlreadyConnected => 0x12,
            MessageId::NewIncomingConnection => 0x13,
            MessageId::NoFreeIncomingConnections => 0x14,
            MessageId::DisconnectionNotification => 0x15,
            MessageId::ConnectionLost => 0x16,
            MessageId::ConnectionBanned => 0x17,
            MessageId::InvalidPassword => 0x18,
            MessageId::IncompatibleProtocolVersion => 0x19,
            MessageId::IpRecentlyConnected => 0x1A,
            MessageId::UnconnectedPong => 0x1C,
        }
    }
}

impl vstd::std_specs::convert::TryFromSpecImpl<u8> for MessageId {
    open spec fn obeys_try_from_spec() -> bool {
        true
    }

    open spec fn try_from_spec(v: u8) -> Result<MessageId, Error> {
        match message_id_of(v) {
            Some(id) => Ok(id),
            None => Err(Error::UnknownMessageId(v)),
        }
    }
}

impl TryFrom<u8> for MessageId {
    type Error = Error;

    fn try_from(value: u8) -> (r: Result<MessageId, Error>) {
        match value {
            0x00 => Ok(MessageId::ConnectedPing),
            0x01 => Ok(MessageId::UnconnectedPing),
            0x02 => Ok(MessageId::UnconnectedPingOpenConnections),
            0x03 => Ok(MessageId::ConnectedPong),
            0x04 => Ok(MessageId::DetectLostConnections),
            0x05 => Ok(MessageId::OpenConnectionRequest1),
            0x06 => Ok(MessageId::OpenConnectionReply1),
            0x07 => Ok(MessageId::OpenConnectionRequest2),
            0x08 => Ok(MessageId::OpenConnectionReply2),
            0x09 => Ok(MessageId::ConnectionRequest),
            0x0D => Ok(MessageId::OutOfBandInternal),
            0x10 => Ok(MessageId::ConnectionRequestAccepted),
            0x11 => Ok(MessageId::ConnectionAttemptFailed),
            0x12 => Ok(MessageId::AlreadyConnected),
            0x13 => Ok(MessageId::NewIncomingConnection),
            0x14 => Ok(MessageId::NoFreeIncomingConnections),
            0x15 => Ok(MessageId::DisconnectionNotification),
            0x16 => Ok(MessageId::ConnectionLost),
            0x17 => Ok(MessageId::ConnectionBanned),
            0x18 => Ok(MessageId::InvalidPassword),
            0x19 => Ok(MessageId::IncompatibleProtocolVersion),
            0x1A => Ok(MessageId::IpRecentlyConnected),
            0x1C => Ok(MessageId::UnconnectedPong),
            _ => Err(Error::UnknownMessageId(value)),
        }
    }
}

} // verus!
