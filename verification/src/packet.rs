//! Packets as the user of a peer sends and receives them.

use vstd::prelude::*;

use crate::address::SocketAddress;
use crate::number::OrderingChannelIndex;

verus! {

/// A packet received from a remote peer.
#[derive(Clone, Debug, PartialEq)]
pub struct Packet {
    addr: SocketAddress,
    guid: u64,
    payload: Vec<u8>,
}

impl Packet {
    /// The sender's address.
    pub closed spec fn spec_addr(&self) -> SocketAddress {
        self.addr
    }

    /// The sender's GUID.
    pub closed spec fn spec_guid(&self) -> u64 {
        self.guid
    }

    /// The payload.
    pub closed spec fn spec_payload(&self) -> Seq<u8> {
        self.payload@
    }

    /// A packet from `addr` and `guid` carrying `payload`.
    pub fn new(addr: SocketAddress, guid: u64, payload: Vec<u8>) -> (r: Packet)
        ensures
            r.spec_addr() == addr,
            r.spec_guid() == guid,
            r.spec_payload() == payload@,
    {
        Packet { addr, guid, payload }
    }

    /// The sender's address.
    pub fn addr(&self) -> (r: SocketAddress)
        ensures
            r == self.spec_addr(),
    {
        self.addr
    }

    /// The sender's GUID.
    pub fn guid(&self) -> (r: u64)
        ensures
            r == self.spec_guid(),
    {
        self.guid
    }

    /// The payload.
    pub fn payload(&self) -> (r: &[u8])
        ensures
            r@ == self.spec_payload(),
    {
        self.payload.as_slice()
    }
}

/// Whether a packet is resent until it is acknowledged.
#[derive(Clone, Copy, Debug, PartialEq, Eq, Structural)]
pub enum Reliability {
    /// Sent once.
    Unreliable,
    /// Resent until acknowledged.
    Reliable,
}

/// How a packet is ordered relative to other packets.
#[derive(Clone, Copy, Debug, PartialEq, Eq, Structural)]
pub enum PacketOrdering {
    /// Delivered as it arrives.
    Unordered,
    /// Delivered in sending order within the ordering channel.
    Ordered(OrderingChannelIndex),
    /// Delivered unless a newer packet of the ordering channel was already
    /// delivered.
    Sequenced(OrderingChannelIndex),
}

/// The priority of an outgoing packet.
#[derive(Clone, Copy, Debug, PartialEq, Eq, Structural)]
pub enum Priority {
    /// The highest possible priority.
    Highest,
    /// For every 2 Highest priority packets 1 High priority packet is sent.
    High,
    /// For every 2 High priority packets 1 Medium priority packet is sent.
    Medium,
    /// For every 2 Medium priority packets 1 Low priority packet is sent.
    Low,
}

/// The level of a priority: 0 for the highest, 3 for the lowest.
pub open spec fn priority_level(p: Priority) -> u64 {
    match p {
        Priority::Highest => 0,
        Priority::High => 1,
        Priority::Medium => 2,
        Priority::Low => 3,
    }
}

impl Priority {
    /// The level of the priority: 0 for the highest, 3 for the lowest.
    pub fn level(self) -> (r: u64)
        ensures
            r == priority_level(self),
    {
        match self {
            Priority::Highest => 0,
            Priority::High => 1,
            Priority::Medium => 2,
            Priority::Low => 3,
        }
    }
}

} // verus!
