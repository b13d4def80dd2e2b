//! The events a peer reports to its user.

use vstd::prelude::*;

use crate::address::SocketAddress;
use crate::packet::Packet;

verus! {

/// The acknowledgement or loss of a packet that was sent with a receipt
/// number.
#[derive(Clone, Copy, Debug, PartialEq, Eq, Structural)]
pub struct SendReceipt {
    addr: SocketAddress,
    guid: u64,
    receipt: u32,
}

impl SendReceipt {
    /// The address the packet was sent to.
    pub closed spec fn spec_addr(&self) -> SocketAddress {
        self.addr
    }

    /// The GUID of the peer the packet was sent to.
    pub closed spec fn spec_guid(&self) -> u64 {
        self.guid
    }

    /// The receipt number given when the packet was sent.
    pub closed spec fn spec_receipt(&self) -> u32 {
        self.receipt
    }

    /// The receipt `receipt` of a packet sent to `addr` and `guid`.
    pub fn new(addr: SocketAddress, guid: u64, receipt: u32) -> (r: SendReceipt)
        ensures
            r.spec_addr() == addr,
            r.spec_guid() == guid,
            r.spec_receipt() == receipt,
    {
        SendReceipt { addr, guid, receipt }
    }

    /// The address the packet was sent to.
    pub fn addr(&self) -> (r: SocketAddress)
        ensures
            r == self.spec_addr(),
    {
        self.addr
    }

    /// The GUID of the peer the packet was sent to.
    pub fn guid(&self) -> (r: u64)
        ensures
            r == self.spec_guid(),
    {
        self.guid
    }

    /// The receipt number given when the packet was sent.
    pub fn receipt(&self) -> (r: u32)
        ensures
            r == self.spec_receipt(),
    {
        self.receipt
    }
}

/// A connection that a remote peer completed.
#[derive(Clone, Copy, Debug, PartialEq, Eq, Structural)]
pub struct IncomingConnection {
    addr: SocketAddress,
    guid: u64,
}

impl IncomingConnection {
    /// The remote address.
    pub closed spec fn spec_addr(&self) -> SocketAddress {
        self.addr
    }

    /// The remote GUID.
    pub closed spec fn spec_guid(&self) -> u64 {
        self.guid
    }

    /// The connection from `addr` with `guid`.
    pub fn new(addr: SocketAddress, guid: u64) -> (r: IncomingConnection)
        ensures
            r.spec_addr() == addr,
            r.spec_guid() == guid,
    {
        IncomingConnection { addr, guid }
    }

    /// The remote address.
    pub fn addr(&self) -> (r: SocketAddress)
        ensures
            r == self.spec_addr(),
    {
        self.addr
    }

    /// The remote GUID.
    pub fn guid(&self) -> (r: u64)
        ensures
            r == self.spec_guid(),
    {
        self.guid
    }
}

/// An event a peer reports to its user.
#[derive(Clone, Debug, PartialEq)]
pub enum PeerEvent {
    /// A packet arrived.
    Packet(Packet),
    /// A packet sent with a receipt was acknowledged.
    SendReceiptAcked(SendReceipt),
    /// A packet sent with a receipt was lost.
    SendReceiptLoss(SendReceipt),
    /// A remote peer completed a connection.
    IncomingConnection(IncomingConnection),
}

} // verus!
