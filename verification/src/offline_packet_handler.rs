//! The answers to offline (unconnected) messages: pings, and the two
//! steps that open a connection.

use vstd::prelude::*;

use crate::address::SocketAddress;
use crate::config::Config;
use crate::connection::{Connection, ConnectionState};
use crate::constants::{MAXIMUM_MTU_SIZE, RAKNET_PROTOCOL_VERSION, UDP_HEADER_SIZE};
use crate::message_ids::{message_id_of, MessageId};
use crate::messages::{
    lemma_unconnected_pong_roundtrip, open_connection_reply_1_bytes, open_connection_reply_2_bytes,
    spec_read_open_connection_request_2, spec_read_unconnected_pong, unconnected_pong_bytes, ConnectErrorMessage,
    IncompatibleProtocolVersionMessage, OpenConnectionReply1Message, OpenConnectionReply2Message,
    OpenConnectionRequest1Message, OpenConnectionRequest2Message, UnconnectedPingMessage,
    UnconnectedPongMessage,
};
use crate::reader::DataReader;
use crate::writer::write_bytes;

verus! {

/// The contents of an optional byte vector.
pub open spec fn reply_view(r: Option<Vec<u8>>) -> Option<Seq<u8>> {
    match r {
        Some(v) => Some(v@),
        None => None,
    }
}

/// The longest offline ping response.
pub open spec fn max_ping_response_len() -> nat {
    399
}

/// No two connections have the same remote address, and each is well
/// formed.
pub open spec fn connections_wf(cs: Seq<Connection>) -> bool {
    &&& forall|i: int| 0 <= i < cs.len() ==> (#[trigger] cs[i]).wf()
    &&& forall|i: int, j: int|
        0 <= i < j < cs.len() ==> (#[trigger] cs[i]).spec_remote_addr() != (#[trigger] cs[j]).spec_remote_addr()
}

/// The number of connections that remote peers initiated and completed.
pub open spec fn connected_incoming_count(cs: Seq<Connection>) -> nat
    decreases cs.len(),
{
    if cs.len() == 0 {
        0
    } else {
        connected_incoming_count(cs.drop_last()) + if cs.last().spec_is_incoming()
            && cs.last().spec_state() == ConnectionState::Connected {
            1nat
        } else {
            0nat
        }
    }
}

/// Whether another incoming connection is allowed: fewer incoming
/// connections are connected than the configured maximum. Connections
/// still in the handshake do not count.
pub open spec fn incoming_allowed(config: Config, cs: Seq<Connection>) -> bool {
    connected_incoming_count(cs) < config.max_incoming_connections
}

/// Some connection has the GUID.
pub open spec fn guid_in_use(cs: Seq<Connection>, guid: u64) -> bool {
    exists|i: int| 0 <= i < cs.len() && (#[trigger] cs[i]).spec_guid() == guid
}

/// The index of the connection with the remote address, if any.
pub open spec fn index_of_addr(cs: Seq<Connection>, addr: SocketAddress) -> Option<int> {
    if exists|i: int| 0 <= i < cs.len() && (#[trigger] cs[i]).spec_remote_addr() == addr {
        Some(choose|i: int| 0 <= i < cs.len() && (#[trigger] cs[i]).spec_remote_addr() == addr)
    } else {
        None
    }
}

/// The answer to an unconnected ping `payload`: a pong with the ping's
/// time, the local GUID and the ping response; none if the ping cannot
/// be read.
pub open spec fn ping_reply(ping_response: Seq<u8>, payload: Seq<u8>, guid: u64) -> Option<Seq<u8>> {
    match UnconnectedPingMessage::spec_read(payload) {
        Ok((ping, _)) => Some(unconnected_pong_bytes((ping.time, guid, ping_response))),
        Err(_) => None,
    }
}

/// The MTU offered for a first connection request with `padding` bytes of
/// padding: the size of the request datagram, at most the largest MTU.
pub open spec fn request_1_mtu(padding: u16) -> u16 {
    let requested = UDP_HEADER_SIZE + 1 + 16 + 1 + padding;
    if requested < MAXIMUM_MTU_SIZE {
        requested as u16
    } else {
        MAXIMUM_MTU_SIZE
    }
}

/// The answer to a first connection request `payload`: an incompatible
/// protocol version message if the versions differ, else a first reply
/// with the offered MTU and no security; none if the request cannot be
/// read.
pub open spec fn request_1_reply(payload: Seq<u8>, guid: u64) -> Option<Seq<u8>> {
    match OpenConnectionRequest1Message::spec_read(payload) {
        Ok(request) => if request.protocol_version != RAKNET_PROTOCOL_VERSION {
            Some(
                (IncompatibleProtocolVersionMessage {
                    protocol_version: RAKNET_PROTOCOL_VERSION,
                    guid,
                }).spec_bytes(),
            )
        } else {
            Some(open_connection_reply_1_bytes((guid, None, request_1_mtu(request.padding_length))))
        },
        Err(_) => None,
    }
}

/// The effect of a second connection request `payload` from `addr`, read
/// at `time`, on the connections `pre`, giving `post` and the answer:
/// - a repeated request from a connection still in the handshake with the
///   same GUID gets the second reply again;
/// - a GUID or address already in use gets "already connected";
/// - when no more incoming connections are allowed, "no free incoming
///   connections";
/// - else a new incoming connection is added and gets the second reply
///   with the requested MTU and no security.
/// A request that cannot be read gets no answer.
pub open spec fn request_2_handled(
    time: u64,
    peer_creation_time: u64,
    addr: SocketAddress,
    payload: Seq<u8>,
    config: Config,
    pre: Seq<Connection>,
    post: Seq<Connection>,
    reply: Option<Seq<u8>>,
) -> bool {
    match spec_read_open_connection_request_2(payload) {
        Err(_) => post == pre && reply is None,
        Ok((request, _)) => {
            let guid = request.3;
            let mtu = request.2;
            let at = index_of_addr(pre, addr);
            let repeated = at matches Some(i) && pre[i].spec_state()
                == ConnectionState::UnverifiedSender && pre[i].spec_guid() == guid;
            if repeated {
                post == pre && reply == Some(
                    open_connection_reply_2_bytes((config.guid, addr, pre[at.unwrap()].spec_mtu(), None)),
                )
            } else if guid_in_use(pre, guid) || at is Some {
                post == pre && reply == Some(
                    (ConnectErrorMessage {
                        message_id: MessageId::AlreadyConnected,
                        guid: config.guid,
                    }).spec_bytes(),
                )
            } else if !incoming_allowed(config, pre) {
                post == pre && reply == Some(
                    (ConnectErrorMessage {
                        message_id: MessageId::NoFreeIncomingConnections,
                        guid: config.guid,
                    }).spec_bytes(),
                )
            } else {
                &&& post.len() == pre.len() + 1
                &&& post.drop_last() == pre
                &&& Connection::fresh_incoming(post.last(), time, peer_creation_time, addr, guid, mtu)
                &&& reply == Some(open_connection_reply_2_bytes((config.guid, addr, mtu, None)))
            }
        },
    }
}

/// How a readable second connection request is answered on the wire: a
/// peer with no room for another incoming connection answers with
/// `ID_NO_FREE_INCOMING_CONNECTIONS` (0x14) and opens nothing; a GUID or
/// address already in use (other than a repeated request) is answered with
/// `ID_ALREADY_CONNECTED` (0x12) and opens nothing; an accepted request is
/// answered with `ID_OPEN_CONNECTION_REPLY_2` (0x08) and opens one
/// connection.
pub proof fn lemma_request_2_answer_bytes(
    time: u64,
    peer_creation_time: u64,
    addr: SocketAddress,
    payload: Seq<u8>,
    config: Config,
    pre: Seq<Connection>,
    post: Seq<Connection>,
    reply: Option<Seq<u8>>,
)
    requires
        spec_read_open_connection_request_2(payload) is Ok,
        request_2_handled(time, peer_creation_time, addr, payload, config, pre, post, reply),
    ensures
        ({
            let guid = spec_read_open_connection_request_2(payload).unwrap().0.3;
            let at = index_of_addr(pre, addr);
            let repeated = at matches Some(i) && pre[i].spec_state() == ConnectionState::UnverifiedSender
                && pre[i].spec_guid() == guid;
            &&& reply matches Some(r) && r.len() > 0
            &&& !repeated && (guid_in_use(pre, guid) || at is Some) ==> post == pre && reply.unwrap()[0]
                == 0x12
            &&& !repeated && !guid_in_use(pre, guid) && at is None && !incoming_allowed(config, pre)
                ==> post == pre && reply.unwrap()[0] == 0x14
            &&& !repeated && !guid_in_use(pre, guid) && at is None && incoming_allowed(config, pre)
                ==> post.len() == pre.len() + 1 && reply.unwrap()[0] == 0x08
            &&& repeated ==> post == pre && reply.unwrap()[0] == 0x08
        }),
{
}

/// A second connection request that opened a connection, when it comes
/// again (its reply was lost), is answered with the same reply and opens
/// no second connection.
pub proof fn lemma_repeated_request_2(
    time: u64,
    time2: u64,
    peer_creation_time: u64,
    addr: SocketAddress,
    payload: Seq<u8>,
    config: Config,
    pre: Seq<Connection>,
    mid: Seq<Connection>,
    reply: Option<Seq<u8>>,
    post: Seq<Connection>,
    reply2: Option<Seq<u8>>,
)
    requires
        connections_wf(mid),
        request_2_handled(time, peer_creation_time, addr, payload, config, pre, mid, reply),
        mid.len() == pre.len() + 1,
        request_2_handled(time2, peer_creation_time, addr, payload, config, mid, post, reply2),
    ensures
        post == mid,
        reply2 == reply,
{
    let last = mid.len() - 1;
    assert(mid[last].spec_remote_addr() == addr);
    let i = choose|i: int| 0 <= i < mid.len() && (#[trigger] mid[i]).spec_remote_addr() == addr;
    assert(i == last) by {
        if i != last {
            if i < last {
                assert(mid[i].spec_remote_addr() != mid[last].spec_remote_addr());
            } else {
                assert(mid[last].spec_remote_addr() != mid[i].spec_remote_addr());
            }
        }
    }
    assert(index_of_addr(mid, addr) == Some(last));
}

/// The effect of a datagram `payload` from `addr`, read at `time`, on the
/// connections `pre`, giving `post`, whether it was an offline message
/// (`handled`) and the answer to send back to `addr`. A datagram of at
/// most two bytes is dropped. Offline messages that are not answered are
/// dropped; any other datagram is not offline and left alone.
pub open spec fn offline_handled(
    ping_response: Seq<u8>,
    time: u64,
    peer_creation_time: u64,
    addr: SocketAddress,
    payload: Seq<u8>,
    config: Config,
    pre: Seq<Connection>,
    post: Seq<Connection>,
    handled: bool,
    reply: Option<Seq<u8>>,
) -> bool {
    if payload.len() <= 2 {
        handled && post == pre && reply is None
    } else {
        match message_id_of(payload[0]) {
            Some(MessageId::UnconnectedPing) => handled && post == pre && reply == ping_reply(
                ping_response,
                payload,
                config.guid,
            ),
            Some(MessageId::UnconnectedPingOpenConnections) => handled && post == pre && reply == if incoming_allowed(config, pre) {
                ping_reply(ping_response, payload, config.guid)
            } else {
                None
            },
            Some(MessageId::OpenConnectionRequest1) => handled && post == pre && reply
                == request_1_reply(payload, config.guid),
            Some(MessageId::OpenConnectionRequest2) => handled && request_2_handled(
                time,
                peer_creation_time,
                addr,
                payload,
                config,
                pre,
                post,
                reply,
            ),
            Some(MessageId::UnconnectedPong) | Some(MessageId::OpenConnectionReply1) | Some(
                MessageId::OpenConnectionReply2,
            ) | Some(MessageId::OutOfBandInternal) | Some(MessageId::ConnectionAttemptFailed) | Some(
                MessageId::NoFreeIncomingConnections,
            ) | Some(MessageId::ConnectionBanned) | Some(MessageId::AlreadyConnected) | Some(
                MessageId::IpRecentlyConnected,
            ) => handled && post == pre && reply is None,
            _ => !handled && post == pre && reply is None,
        }
    }
}

/// A peer that allows no incoming connections only acts as a client: no
/// offline message opens a connection to it, and a ping that asks for
/// open connections gets no answer.
pub proof fn lemma_client_only(
    ping_response: Seq<u8>,
    time: u64,
    peer_creation_time: u64,
    addr: SocketAddress,
    payload: Seq<u8>,
    config: Config,
    pre: Seq<Connection>,
    post: Seq<Connection>,
    handled: bool,
    reply: Option<Seq<u8>>,
)
    requires
        config.max_incoming_connections == 0,
        offline_handled(ping_response, time, peer_creation_time, addr, payload, config, pre, post, handled, reply),
    ensures
        post == pre,
        payload.len() > 2 && message_id_of(payload[0]) == Some(MessageId::UnconnectedPingOpenConnections)
            ==> reply is None,
{
}

/// The ping response set on a handler is what its pongs carry, cut to 399
/// bytes: when the handler's response is `response` set from `r` (see
/// `set_offline_ping_response`), the answer to a readable unconnected
/// ping is a pong that reads back with the ping's time, the local GUID
/// and that response.
pub proof fn lemma_pong_carries_ping_response(
    r: Seq<u8>,
    response: Seq<u8>,
    time: u64,
    peer_creation_time: u64,
    addr: SocketAddress,
    payload: Seq<u8>,
    config: Config,
    pre: Seq<Connection>,
    post: Seq<Connection>,
    handled: bool,
    reply: Option<Seq<u8>>,
)
    requires
        response == if r.len() > max_ping_response_len() {
            r.take(max_ping_response_len() as int)
        } else {
            r
        },
        payload.len() > 2,
        message_id_of(payload[0]) == Some(MessageId::UnconnectedPing),
        UnconnectedPingMessage::spec_read(payload) is Ok,
        offline_handled(response, time, peer_creation_time, addr, payload, config, pre, post, handled, reply),
    ensures
        handled,
        post == pre,
        reply matches Some(bytes) && spec_read_unconnected_pong(bytes) == Ok::<(u64, u64, Seq<u8>), crate::error::Error>(
            (UnconnectedPingMessage::spec_read(payload).unwrap().0.time, config.guid, response),
        ),
        response.len() == if r.len() > max_ping_response_len() {
            max_ping_response_len()
        } else {
            r.len()
        },
{
    let (ping, _) = UnconnectedPingMessage::spec_read(payload).unwrap();
    lemma_unconnected_pong_roundtrip((ping.time, config.guid, response));
}

/// Answers offline messages.
pub struct OfflinePacketHandler {
    ping_response: Vec<u8>,
}

impl OfflinePacketHandler {
    /// The response sent to an offline ping.
    pub closed spec fn spec_ping_response(&self) -> Seq<u8> {
        self.ping_response@
    }

    /// A handler with an empty ping response.
    pub fn new() -> (r: OfflinePacketHandler)
        ensures
            r.spec_ping_response() == Seq::<u8>::empty(),
    {
        OfflinePacketHandler { ping_response: Vec::new() }
    }

    /// Sets the response returned to an offline ping. A response longer
    /// than 399 bytes is truncated.
    pub fn set_offline_ping_response(&mut self, ping_response: Vec<u8>)
        ensures
            final(self).spec_ping_response() == if ping_response@.len() > max_ping_response_len() {
                ping_response@.take(max_ping_response_len() as int)
            } else {
                ping_response@
            },
    {
        let mut ping_response = ping_response;
        ping_response.truncate(399);
        self.ping_response = ping_response;
    }

    /// Processes a datagram from `addr` that arrived at `time`, as
    /// `offline_handled` says. Returns whether it was an offline message
    /// and the answer to send back to `addr`. A new connection records
    /// `peer_creation_time` as the local peer's creation time.
    pub fn process_offline_packet(
        &self,
        time: u64,
        peer_creation_time: u64,
        addr: SocketAddress,
        payload: &[u8],
        config: &Config,
        connections: &mut Vec<Connection>,
    ) -> (r: (bool, Option<Vec<u8>>))
        requires
            connections_wf(old(connections)@),
        ensures
            connections_wf(final(connections)@),
            offline_handled(
                self.spec_ping_response(),
                time,
                peer_creation_time,
                addr,
                payload@,
                *config,
                old(connections)@,
                final(connections)@,
                r.0,
                match r.1 {
                    Some(v) => Some(v@),
                    None => None,
                },
            ),
    {
        // Banned remote peers are not checked.
        if payload.len() > 2 {
            let reply = match MessageId::try_from(payload[0]) {
                Ok(MessageId::UnconnectedPing) => self.handle_unconnected_ping(payload, config),
                Ok(MessageId::UnconnectedPingOpenConnections) => self.handle_unconnected_ping_open_connections(
                    payload,
                    config,
                    connections,
                ),
                Ok(MessageId::UnconnectedPong) => None,
                Ok(MessageId::OpenConnectionRequest1) => Self::handle_open_connection_request1(payload, config),
                Ok(MessageId::OpenConnectionRequest2) => Self::handle_open_connection_request2(
                    time,
                    peer_creation_time,
                    addr,
                    payload,
                    config,
                    connections,
                ),
                Ok(MessageId::OpenConnectionReply1) => None,
                Ok(MessageId::OpenConnectionReply2) => None,
                Ok(MessageId::OutOfBandInternal) => None,
                Ok(MessageId::ConnectionAttemptFailed) => None,
                Ok(MessageId::NoFreeIncomingConnections) => None,
                Ok(MessageId::ConnectionBanned) => None,
                Ok(MessageId::AlreadyConnected) => None,
                Ok(MessageId::IpRecentlyConnected) => None,
                _ => {
                    return (false, None);
                },
            };
            (true, reply)
        } else {
            (true, None)
        }
    }

    /// Answers an unconnected ping with a pong.
    fn handle_unconnected_ping(&self, payload: &[u8], config: &Config) -> (r: Option<Vec<u8>>)
        ensures
            match r {
                Some(v) => Some(v@),
                None => None,
            } == ping_reply(self.spec_ping_response(), payload@, config.guid),
    {
        let mut reader = DataReader::new(payload);
        match UnconnectedPingMessage::read_message(&mut reader) {
            Ok(ping) => {
                let mut data: Vec<u8> = Vec::new();
                write_bytes(&mut data, self.ping_response.as_slice());
                let pong = UnconnectedPongMessage { time: ping.time, guid: config.guid, data };
                let mut bytes: Vec<u8> = Vec::new();
                let _ = pong.write_message(&mut bytes);
                assert(bytes@ =~= unconnected_pong_bytes((ping.time, config.guid, self.spec_ping_response())));
                Some(bytes)
            },
            Err(_) => None,
        }
    }

    /// Answers an unconnected ping for open connections with a pong, if
    /// incoming connections are allowed.
    fn handle_unconnected_ping_open_connections(
        &self,
        payload: &[u8],
        config: &Config,
        connections: &Vec<Connection>,
    ) -> (r: Option<Vec<u8>>)
        ensures
            match r {
                Some(v) => Some(v@),
                None => None,
            } == if incoming_allowed(*config, connections@) {
                ping_reply(self.spec_ping_response(), payload@, config.guid)
            } else {
                None
            },
    {
        if Self::allow_incoming_connections(config, connections) {
            self.handle_unconnected_ping(payload, config)
        } else {
            None
        }
    }

    /// Answers a first connection request.
    fn handle_open_connection_request1(payload: &[u8], config: &Config) -> (r: Option<Vec<u8>>)
        ensures
            match r {
                Some(v) => Some(v@),
                None => None,
            } == request_1_reply(payload@, config.guid),
    {
        let mut reader = DataReader::new(payload);
        match OpenConnectionRequest1Message::read_message(&mut reader) {
            Ok(request1) => {
                let mut bytes: Vec<u8> = Vec::new();
                if request1.protocol_version != RAKNET_PROTOCOL_VERSION {
                    let message = IncompatibleProtocolVersionMessage {
                        protocol_version: RAKNET_PROTOCOL_VERSION,
                        guid: config.guid,
                    };
                    let _ = message.write_message(&mut bytes);
                } else {
                    let requested_mtu: u32 = UDP_HEADER_SIZE as u32 + 1 + 16 + 1
                        + request1.padding_length as u32;
                    let mtu: u16 = if requested_mtu < MAXIMUM_MTU_SIZE as u32 {
                        requested_mtu as u16
                    } else {
                        MAXIMUM_MTU_SIZE
                    };
                    // Security is not supported.
                    let response = OpenConnectionReply1Message {
                        guid: config.guid,
                        cookie_and_public_key: None,
                        mtu,
                    };
                    let _ = response.write_message(&mut bytes);
                }
                assert(bytes@ =~= request_1_reply(payload@, config.guid).unwrap());
                Some(bytes)
            },
            Err(_) => None,
        }
    }

    /// Handles a second connection request.
    fn handle_open_connection_request2(
        time: u64,
        peer_creation_time: u64,
        addr: SocketAddress,
        payload: &[u8],
        config: &Config,
        connections: &mut Vec<Connection>,
    ) -> (r: Option<Vec<u8>>)
        requires
            connections_wf(old(connections)@),
        ensures
            connections_wf(final(connections)@),
            request_2_handled(
                time,
                peer_creation_time,
                addr,
                payload@,
                *config,
                old(connections)@,
                final(connections)@,
                match r {
                    Some(v) => Some(v@),
                    None => None,
                },
            ),
    {
        let mut reader = DataReader::new(payload);
        let request2 = match OpenConnectionRequest2Message::read_message(&mut reader) {
            Ok(request2) => request2,
            Err(_) => {
                return None;
            },
        };
        // Security is not checked.
        let guid_in_use = find_guid(connections, request2.guid);
        let at = find_addr(connections, addr);
        let mut bytes: Vec<u8> = Vec::new();
        match at {
            Some(i) => {
                if connections[i].state() == ConnectionState::UnverifiedSender && connections[i].guid()
                    == request2.guid {
                    // A repeated request (the reply was lost): reply again.
                    let reply2 = OpenConnectionReply2Message {
                        guid: config.guid,
                        client_address: addr,
                        mtu: connections[i].mtu(),
                        challenge_answer: None,
                    };
                    let _ = reply2.write_message(&mut bytes);
                    assert(bytes@ =~= open_connection_reply_2_bytes(
                        (config.guid, addr, connections@[i as int].spec_mtu(), None),
                    ));
                    return Some(bytes);
                }
            },
            None => {},
        }
        if guid_in_use || at.is_some() {
            let message = ConnectErrorMessage {
                message_id: MessageId::AlreadyConnected,
                guid: config.guid,
            };
            let _ = message.write_message(&mut bytes);
            assert(bytes@ =~= message.spec_bytes());
            return Some(bytes);
        }
        if !Self::allow_incoming_connections(config, connections) {
            let message = ConnectErrorMessage {
                message_id: MessageId::NoFreeIncomingConnections,
                guid: config.guid,
            };
            let _ = message.write_message(&mut bytes);
            assert(bytes@ =~= message.spec_bytes());
            return Some(bytes);
        }
        // Recent connections from the same address and the MTU's range are
        // not checked.
        let conn = Connection::incoming(time, peer_creation_time, addr, request2.guid, request2.mtu);
        let ghost pre = connections@;
        connections.push(conn);
        assert(connections@.drop_last() =~= pre);
        // Security is not supported.
        let reply2 = OpenConnectionReply2Message {
            guid: config.guid,
            client_address: addr,
            mtu: request2.mtu,
            challenge_answer: None,
        };
        let _ = reply2.write_message(&mut bytes);
        assert(bytes@ =~= open_connection_reply_2_bytes((config.guid, addr, request2.mtu, None)));
        Some(bytes)
    }

    /// Whether another incoming connection is allowed.
    fn allow_incoming_connections(config: &Config, connections: &Vec<Connection>) -> (r: bool)
        ensures
            r == incoming_allowed(*config, connections@),
    {
        // As in the RakNet reference implementation, only connected incoming
        // connections count, so more connections than the maximum may be in
        // the handshake.
        let mut count: usize = 0;
        let mut i: usize = 0;
        while i < connections.len()
            invariant
                i <= connections@.len(),
                count == connected_incoming_count(connections@.take(i as int)),
                count <= i,
            decreases connections@.len() - i,
        {
            assert(connections@.take(i as int + 1).drop_last() =~= connections@.take(i as int));
            if connections[i].is_incoming() && connections[i].state() == ConnectionState::Connected {
                count = count + 1;
            }
            i = i + 1;
        }
        assert(connections@.take(i as int) =~= connections@);
        (count as u128) < config.max_incoming_connections as u128
    }
}

/// Whether some connection has the GUID.
fn find_guid(connections: &Vec<Connection>, guid: u64) -> (r: bool)
    ensures
        r == guid_in_use(connections@, guid),
{
    let mut i: usize = 0;
    while i < connections.len()
        invariant
            i <= connections@.len(),
            forall|j: int| 0 <= j < i ==> (#[trigger] connections@[j]).spec_guid() != guid,
        decreases connections@.len() - i,
    {
        if connections[i].guid() == guid {
            assert(connections@[i as int].spec_guid() == guid);
            return true;
        }
        i = i + 1;
    }
    false
}

/// The index of the connection with the remote address, if any.
pub(crate) fn find_addr(connections: &Vec<Connection>, addr: SocketAddress) -> (r: Option<usize>)
    requires
        connections_wf(connections@),
    ensures
        match r {
            Some(i) => index_of_addr(connections@, addr) == Some(i as int) && i < connections@.len(),
            None => index_of_addr(connections@, addr) is None,
        },
{
    let mut i: usize = 0;
    while i < connections.len()
        invariant
            i <= connections@.len(),
            connections_wf(connections@),
            forall|j: int| 0 <= j < i ==> (#[trigger] connections@[j]).spec_remote_addr() != addr,
        decreases connections@.len() - i,
    {
        if connections[i].remote_addr() == addr {
            assert(connections@[i as int].spec_remote_addr() == addr);
            let ghost c = choose|k: int|
                0 <= k < connections@.len() && (#[trigger] connections@[k]).spec_remote_addr() == addr;
            assert(c == i) by {
                if c < i {
                } else if c > i {
                    assert(connections@[i as int].spec_remote_addr() != connections@[c].spec_remote_addr());
                }
            }
            return Some(i);
        }
        i = i + 1;
    }
    None
}

} // verus!
