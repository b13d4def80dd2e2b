//! The configuration of a peer.

use vstd::prelude::*;

verus! {

/// Calls `rand::random::<u64>()`, which draws a value from the
/// thread-local random number generator. Nothing is claimed about the
/// value: any `u64` may come back.
#[verifier::external_body]
fn random_guid() -> (r: u64) {
    rand::random::<u64>()
}

/// The configuration of a peer.
pub struct Config {
    /// A unique (random) identifier that identifies this peer in
    /// connections with other peers.
    pub guid: u64,
    /// The maximum number of incoming connections, thus not initiated
    /// by this peer. If set to 0 the peer will only act as a client.
    pub max_incoming_connections: usize,
    /// The time in milliseconds that a remote peer has to send a
    /// connection request before the connection get dropped.
    ///
    /// The time is measured from when this peer has sent
    /// an "open connection reply 2" until we receive a "connection request".
    pub incoming_connection_timeout_in_ms: u128,
    /// The time in milliseconds before a connection is considered dead
    /// if no datagrams have been received when this peer has sent packets
    /// that are awaiting acks.
    pub ack_timeout_in_ms: u128,
}

impl Default for Config {
    /// A random GUID, at most 50 incoming connections, and timeouts of
    /// ten seconds.
    fn default() -> (r: Config)
        ensures
            r.max_incoming_connections == 50,
            r.incoming_connection_timeout_in_ms == 10000,
            r.ack_timeout_in_ms == 10000,
    {
        Config {
            guid: random_guid(),
            max_incoming_connections: 50,
            incoming_connection_timeout_in_ms: 10000,
            ack_timeout_in_ms: 10000,
        }
    }
}

} // verus!
