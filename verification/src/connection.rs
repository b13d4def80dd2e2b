//! One connection to a remote peer: the handshake that a remote peer
//! initiates, connected pings, and the packets that go to the user.
//!
//! The connection does no I/O: it returns the datagrams to send and the
//! events for the user.

use vstd::prelude::*;

use crate::address::SocketAddress;
use crate::clock::{elapsed_ms, whole_millis};
use crate::config::Config;
use crate::events::{IncomingConnection, PeerEvent};
use crate::message_ids::{message_id_of, MessageId};
use crate::messages::{
    connection_request_accepted_bytes, spec_read_connection_request,
    spec_read_new_incoming_connection, ConnectedPingMessage, ConnectedPongMessage,
    ConnectionRequestAcceptedMessage, ConnectionRequestMessage, NewIncomingConnectionMessage,
};
use crate::acknowledge_handler::retransmission_timeout;
use crate::packet::{Packet, PacketOrdering, Priority, Reliability};
use crate::reader::DataReader;
use crate::reliability_layer::{payload_views, ReliabilityLayer};

verus! {

/// The stage of the handshake a connection is in.
#[derive(Clone, Copy, Debug, PartialEq, Eq, Structural)]
pub enum ConnectionState {
    /// The remote peer has not sent a connection request yet.
    UnverifiedSender,
    /// The connection request was accepted; the remote peer has not
    /// confirmed yet.
    HandlingConnectionRequest,
    /// The handshake is complete.
    Connected,
}

/// The events, one sequence after the other.
pub open spec fn concat_events(evs: Seq<Seq<PeerEvent>>) -> Seq<PeerEvent>
    decreases evs.len(),
{
    if evs.len() == 0 {
        Seq::empty()
    } else {
        concat_events(evs.drop_last()) + evs.last()
    }
}

/// A connection to a remote peer.
pub struct Connection {
    reliability_layer: ReliabilityLayer,
    connection_time: u64,
    peer_creation_time: u64,
    remote_addr: SocketAddress,
    remote_guid: u64,
    is_incoming: bool,
    mtu: u16,
    /// The stage of the handshake.
    pub state: ConnectionState,
}

impl Connection {
    /// The reliability layer.
    pub closed spec fn layer(&self) -> ReliabilityLayer {
        self.reliability_layer
    }

    /// The time (in nanoseconds) the connection was created.
    pub closed spec fn spec_connection_time(&self) -> u64 {
        self.connection_time
    }

    /// The time (in nanoseconds) the local peer was created.
    pub closed spec fn spec_peer_creation_time(&self) -> u64 {
        self.peer_creation_time
    }

    /// The remote peer's address.
    pub closed spec fn spec_remote_addr(&self) -> SocketAddress {
        self.remote_addr
    }

    /// The remote peer's GUID.
    pub closed spec fn spec_guid(&self) -> u64 {
        self.remote_guid
    }

    /// Whether the remote peer initiated the connection.
    pub closed spec fn spec_is_incoming(&self) -> bool {
        self.is_incoming
    }

    /// The agreed MTU.
    pub closed spec fn spec_mtu(&self) -> u16 {
        self.mtu
    }

    /// The stage of the handshake.
    pub closed spec fn spec_state(&self) -> ConnectionState {
        self.state
    }

    /// The reliability layer is well formed.
    pub open spec fn wf(&self) -> bool {
        self.layer().wf()
    }

    /// Everything but the reliability layer and the state is the same in
    /// `post` as in `pre`.
    pub open spec fn same_identity(pre: Connection, post: Connection) -> bool {
        &&& post.spec_connection_time() == pre.spec_connection_time()
        &&& post.spec_peer_creation_time() == pre.spec_peer_creation_time()
        &&& post.spec_remote_addr() == pre.spec_remote_addr()
        &&& post.spec_guid() == pre.spec_guid()
        &&& post.spec_is_incoming() == pre.spec_is_incoming()
        &&& post.spec_mtu() == pre.spec_mtu()
    }

    /// `post` is `pre` with the message `bytes` sent at `time` with the
    /// highest priority and no receipt; nothing else changes.
    pub open spec fn message_sent(
        pre: Connection,
        time: u64,
        bytes: Seq<u8>,
        reliability: Reliability,
        ordering: PacketOrdering,
        post: Connection,
    ) -> bool {
        &&& Connection::same_identity(pre, post)
        &&& post.spec_state() == pre.spec_state()
        &&& ReliabilityLayer::packet_sent(
            pre.layer(),
            time,
            Priority::Highest,
            reliability,
            ordering,
            None,
            bytes,
            post.layer(),
        )
    }

    /// The time of the local peer at `time`: whole milliseconds since it
    /// was created.
    pub open spec fn peer_time(&self, time: u64) -> u64 {
        elapsed_ms(self.spec_peer_creation_time(), time)
    }

    /// The effect of a connection request `payload`, read at `time`: a
    /// readable request is accepted, the acceptance (with the local
    /// addresses `ip_list`) is sent reliably ordered on channel 0, and the
    /// connection waits for the remote peer's confirmation. An unreadable
    /// request changes nothing.
    pub open spec fn connection_request_handled(
        pre: Connection,
        payload: Seq<u8>,
        time: u64,
        ip_list: Seq<SocketAddress>,
        post: Connection,
    ) -> bool {
        match spec_read_connection_request(payload) {
            Err(_) => post == pre,
            Ok(request) => {
                let accepted = connection_request_accepted_bytes(
                    (pre.spec_remote_addr(), 0, ip_list, request.1, pre.peer_time(time)),
                );
                &&& Connection::same_identity(pre, post)
                &&& post.spec_state() == ConnectionState::HandlingConnectionRequest
                &&& ReliabilityLayer::packet_sent(
                    pre.layer(),
                    time,
                    Priority::Highest,
                    Reliability::Reliable,
                    PacketOrdering::Ordered(0),
                    None,
                    accepted,
                    post.layer(),
                )
            },
        }
    }

    /// The effect of a new incoming connection message `payload`, read at
    /// `time`: while the connection request is being handled, a readable
    /// message completes the handshake, a connected ping is sent and the
    /// user learns of the connection. Otherwise nothing changes.
    pub open spec fn new_incoming_connection_handled(
        pre: Connection,
        payload: Seq<u8>,
        time: u64,
        post: Connection,
        evs: Seq<PeerEvent>,
    ) -> bool {
        if spec_read_new_incoming_connection(payload) is Ok && pre.spec_state()
            == ConnectionState::HandlingConnectionRequest {
            let ping = ConnectedPingMessage { time: pre.peer_time(time) };
            &&& Connection::same_identity(pre, post)
            &&& post.spec_state() == ConnectionState::Connected
            &&& ReliabilityLayer::packet_sent(
                pre.layer(),
                time,
                Priority::Highest,
                Reliability::Unreliable,
                PacketOrdering::Unordered,
                None,
                ping.spec_bytes(),
                post.layer(),
            )
            &&& evs.len() == 1
            &&& evs[0] matches PeerEvent::IncomingConnection(c) && c.spec_addr()
                == pre.spec_remote_addr() && c.spec_guid() == pre.spec_guid()
        } else {
            post == pre && evs.len() == 0
        }
    }

    /// The effect of a connected ping `payload`, read at `time`: a
    /// readable ping is answered with a pong, sent unreliably and
    /// unordered. An unreadable ping changes nothing.
    pub open spec fn connected_ping_handled(pre: Connection, payload: Seq<u8>, time: u64, post: Connection) -> bool {
        match ConnectedPingMessage::spec_read(payload) {
            Err(_) => post == pre,
            Ok((ping, _)) => {
                let pong = ConnectedPongMessage {
                    send_ping_time: ping.time,
                    send_pong_time: pre.peer_time(time),
                };
                Connection::message_sent(
                    pre,
                    time,
                    pong.spec_bytes(),
                    Reliability::Unreliable,
                    PacketOrdering::Unordered,
                    post,
                )
            },
        }
    }

    /// The effect of a packet `p` from the remote peer, read at `time`, on
    /// `pre`, giving `post` and the events `evs`. An empty packet is
    /// dropped. Before the handshake only a connection request is handled
    /// and everything else is dropped. Afterwards the connection messages
    /// are handled (or ignored) and every other packet goes to the user.
    pub open spec fn packet_handled(
        pre: Connection,
        p: Packet,
        time: u64,
        ip_list: Seq<SocketAddress>,
        post: Connection,
        evs: Seq<PeerEvent>,
    ) -> bool {
        let payload = p.spec_payload();
        if payload.len() == 0 {
            post == pre && evs.len() == 0
        } else if pre.spec_state() == ConnectionState::UnverifiedSender {
            &&& evs.len() == 0
            &&& if message_id_of(payload[0]) == Some(MessageId::ConnectionRequest) {
                Connection::connection_request_handled(pre, payload, time, ip_list, post)
            } else {
                post == pre
            }
        } else {
            match message_id_of(payload[0]) {
                Some(MessageId::NewIncomingConnection) => Connection::new_incoming_connection_handled(
                    pre,
                    payload,
                    time,
                    post,
                    evs,
                ),
                Some(MessageId::ConnectedPing) => evs.len() == 0
                    && Connection::connected_ping_handled(pre, payload, time, post),
                Some(MessageId::ConnectionRequest) | Some(MessageId::ConnectedPong) | Some(
                    MessageId::DisconnectionNotification,
                ) | Some(MessageId::DetectLostConnections) | Some(MessageId::InvalidPassword) | Some(
                    MessageId::ConnectionRequestAccepted,
                ) => post == pre && evs.len() == 0,
                _ => post == pre && evs == seq![PeerEvent::Packet(p)],
            }
        }
    }

    /// `states` and `evs` trace the handling of the packets `ps`, read at
    /// `time`, one after the other.
    pub open spec fn packets_trace(
        ps: Seq<Packet>,
        time: u64,
        ip_list: Seq<SocketAddress>,
        states: Seq<Connection>,
        evs: Seq<Seq<PeerEvent>>,
    ) -> bool {
        &&& states.len() == ps.len() + 1
        &&& evs.len() == ps.len()
        &&& forall|i: int|
            0 <= i < ps.len() ==> #[trigger] Connection::packet_handled(
                states[i],
                ps[i],
                time,
                ip_list,
                states[i + 1],
                evs[i],
            )
    }

    /// Handling the packets `ps`, read at `time`, one after the other,
    /// takes `pre` to `post` and gives the events `events`.
    pub open spec fn packets_handled(
        pre: Connection,
        ps: Seq<Packet>,
        time: u64,
        ip_list: Seq<SocketAddress>,
        post: Connection,
        events: Seq<PeerEvent>,
    ) -> bool {
        exists|states: Seq<Connection>, evs: Seq<Seq<PeerEvent>>|
            #[trigger] Connection::packets_trace(ps, time, ip_list, states, evs) && states[0] == pre
                && states.last() == post && events == concat_events(evs)
    }

    /// `c` is a new connection that `remote_addr` with `remote_guid`
    /// initiated at `connection_time` with the given MTU, on a peer created
    /// at `peer_creation_time`: it waits for the connection request and
    /// nothing was sent or received yet.
    pub open spec fn fresh_incoming(
        c: Connection,
        connection_time: u64,
        peer_creation_time: u64,
        remote_addr: SocketAddress,
        remote_guid: u64,
        mtu: u16,
    ) -> bool {
        &&& c.wf()
        &&& c.spec_state() == ConnectionState::UnverifiedSender
        &&& c.spec_connection_time() == connection_time
        &&& c.spec_peer_creation_time() == peer_creation_time
        &&& c.spec_remote_addr() == remote_addr
        &&& c.spec_guid() == remote_guid
        &&& c.spec_is_incoming()
        &&& c.spec_mtu() == mtu
        &&& ReliabilityLayer::fresh(c.layer(), remote_addr, remote_guid, mtu, connection_time)
    }

    /// The effect of one update at `time` on `pre`, giving `post` and the
    /// datagrams `ds` to send: a dead connection sends nothing, else the
    /// reliability layer sends what is due.
    pub open spec fn updated(pre: Connection, time: u64, config: Config, post: Connection, ds: Seq<Seq<u8>>) -> bool {
        &&& Connection::same_identity(pre, post)
        &&& post.spec_state() == pre.spec_state()
        &&& if pre.layer().spec_is_ack_timeout(time, config) {
            post.layer() == pre.layer() && ds.len() == 0
        } else {
            ReliabilityLayer::updated(pre.layer(), time, post.layer(), ds)
        }
    }

    /// The effect of a datagram `payload` from the remote peer, arrived at
    /// `time`, on `pre`, giving `post` and the events `events`: the
    /// reliability layer processes it, and the packets it gives are
    /// handled one after the other.
    pub open spec fn datagram_handled(
        pre: Connection,
        payload: Seq<u8>,
        time: u64,
        ip_list: Seq<SocketAddress>,
        post: Connection,
        events: Seq<PeerEvent>,
    ) -> bool {
        exists|mid: Connection, packets: Option<Seq<Packet>>|
            #[trigger] ReliabilityLayer::datagram_processed(
                pre.layer(),
                payload,
                time,
                mid.layer(),
                packets,
            ) && Connection::same_identity(pre, mid) && mid.spec_state() == pre.spec_state()
                && match packets {
                None => post == mid && events.len() == 0,
                Some(ps) => Connection::packets_handled(mid, ps, time, ip_list, post, events),
            }
    }

    /// Whether the connection should be dropped at `time`: the remote
    /// peer did not complete the handshake within the incoming connection
    /// timeout, or the connection is dead.
    pub open spec fn spec_should_drop(&self, time: u64, config: Config) -> bool {
        ||| (self.spec_state() == ConnectionState::UnverifiedSender || self.spec_state()
            == ConnectionState::HandlingConnectionRequest) && elapsed_ms(self.spec_connection_time(), time)
            > config.incoming_connection_timeout_in_ms
        ||| self.layer().spec_is_ack_timeout(time, config)
    }

    /// Only a handshake times out: a connection that completed the
    /// handshake is dropped exactly when it is dead (datagrams are in flight
    /// and none arrived for longer than the ACK timeout), however long ago
    /// it was opened; in particular one with nothing in flight is kept. A
    /// connection still in the handshake is also dropped once the
    /// incoming connection timeout has passed since it was opened.
    pub proof fn lemma_drop_rule(c: Connection, time: u64, config: Config)
        ensures
            c.spec_state() == ConnectionState::Connected ==> (c.spec_should_drop(time, config) == (
            c.layer().acknowledge_handler().sent().len() > 0 && elapsed_ms(
                c.layer().time_last_datagram(),
                time,
            ) > config.ack_timeout_in_ms)),
            c.spec_state() == ConnectionState::Connected && c.layer().acknowledge_handler().sent().len()
                == 0 ==> !c.spec_should_drop(time, config),
            c.spec_state() != ConnectionState::Connected && elapsed_ms(c.spec_connection_time(), time)
                > config.incoming_connection_timeout_in_ms ==> c.spec_should_drop(time, config),
            c.spec_state() != ConnectionState::Connected && elapsed_ms(c.spec_connection_time(), time)
                <= config.incoming_connection_timeout_in_ms ==> (c.spec_should_drop(time, config) == (
            c.layer().acknowledge_handler().sent().len() > 0 && elapsed_ms(
                c.layer().time_last_datagram(),
                time,
            ) > config.ack_timeout_in_ms)),
    {
    }

    /// A connection that `remote_addr` with `remote_guid` initiated at
    /// `connection_time` with the given MTU, on a peer created at
    /// `peer_creation_time`.
    pub fn incoming(
        connection_time: u64,
        peer_creation_time: u64,
        remote_addr: SocketAddress,
        remote_guid: u64,
        mtu: u16,
    ) -> (r: Connection)
        ensures
            Connection::fresh_incoming(r, connection_time, peer_creation_time, remote_addr, remote_guid, mtu),
    {
        Connection {
            reliability_layer: ReliabilityLayer::new(remote_addr, remote_guid, mtu, connection_time),
            connection_time,
            peer_creation_time,
            remote_addr,
            remote_guid,
            is_incoming: true,
            mtu,
            state: ConnectionState::UnverifiedSender,
        }
    }

    /// The stage of the handshake.
    pub fn state(&self) -> (r: ConnectionState)
        ensures
            r == self.spec_state(),
    {
        self.state
    }

    /// The GUID of the remote peer.
    pub fn guid(&self) -> (r: u64)
        ensures
            r == self.spec_guid(),
    {
        self.remote_guid
    }

    /// The agreed MTU.
    pub fn mtu(&self) -> (r: u16)
        ensures
            r == self.spec_mtu(),
    {
        self.mtu
    }

    /// Whether the remote peer initiated the connection.
    pub fn is_incoming(&self) -> (r: bool)
        ensures
            r == self.spec_is_incoming(),
    {
        self.is_incoming
    }

    /// The remote peer's address.
    pub fn remote_addr(&self) -> (r: SocketAddress)
        ensures
            r == self.spec_remote_addr(),
    {
        self.remote_addr
    }

    /// Sends acknowledgements and queued packets that are due at `time`
    /// and returns the datagrams to send to the remote peer.
    pub fn update(&mut self, time: u64, config: &Config) -> (r: Vec<Vec<u8>>)
        requires
            old(self).wf(),
            time <= u64::MAX - retransmission_timeout(),
        ensures
            final(self).wf(),
            Connection::updated(*old(self), time, *config, *final(self), payload_views(r@)),
    {
        self.reliability_layer.update(time, config)
    }

    /// Processes a datagram from the remote peer that arrived at `time`
    /// and returns the events for the user. `ip_list` are the local
    /// addresses sent when a connection request is accepted.
    pub fn process_incoming_datagram(&mut self, payload: &[u8], time: u64, ip_list: &Vec<SocketAddress>) -> (r: Vec<PeerEvent>)
        requires
            old(self).wf(),
        ensures
            final(self).wf(),
            Connection::same_identity(*old(self), *final(self)),
            Connection::datagram_handled(*old(self), payload@, time, ip_list@, *final(self), r@),
    {
        let packets = self.reliability_layer.process_incoming_datagram(payload, time);
        let ghost mid = *self;
        let ghost ps = match &packets {
            Some(v) => Some(v@),
            None => None,
        };
        assert(ReliabilityLayer::datagram_processed(old(self).layer(), payload@, time, mid.layer(), ps));
        let mut events: Vec<PeerEvent> = Vec::new();
        match packets {
            None => {
                assert(payload_views(Seq::<Vec<u8>>::empty()) =~= Seq::<Seq<u8>>::empty());
                events
            },
            Some(packets) => {
                let ghost all = packets@;
                let ghost mut states: Seq<Connection> = seq![mid];
                let ghost mut evs: Seq<Seq<PeerEvent>> = Seq::empty();
                let mut packets = packets;
                let mut k: usize = 0;
                let n: usize = packets.len();
                assert(all.skip(0) =~= all);
                while packets.len() > 0
                    invariant
                        self.wf(),
                        Connection::same_identity(*old(self), *self),
                        n == all.len(),
                        k + packets@.len() == n,
                        packets@ == all.skip(k as int),
                        states.len() == k + 1,
                        evs.len() == k,
                        states[0] == mid,
                        states.last() == *self,
                        forall|i: int|
                            0 <= i < k ==> #[trigger] Connection::packet_handled(
                                states[i],
                                all[i],
                                time,
                                ip_list@,
                                states[i + 1],
                                evs[i],
                            ),
                        events@ == concat_events(evs),
                    decreases packets@.len(),
                {
                    let ghost before = packets@;
                    let packet = packets.remove(0);
                    assert(packet == all[k as int]) by {
                        assert(before[0] == all.skip(k as int)[0]);
                    }
                    assert(packets@ =~= all.skip(k as int + 1)) by {
                        assert forall|j: int| 0 <= j < packets@.len() implies packets@[j] == all.skip(
                            k as int + 1,
                        )[j] by {
                            assert(packets@[j] == before[j + 1]);
                        }
                    }
                    let ghost pre_state = *self;
                    let mut new_events: Vec<PeerEvent> = Vec::new();
                    let handled = self.handle_connection_related_packet(&packet, time, ip_list, &mut new_events);
                    if !handled {
                        new_events.push(PeerEvent::Packet(packet));
                        assert(new_events@ =~= seq![PeerEvent::Packet(all[k as int])]);
                    }
                    let ghost step = new_events@;
                    assert(Connection::packet_handled(pre_state, all[k as int], time, ip_list@, *self, step));
                    let ghost old_states = states;
                    let ghost old_evs = evs;
                    proof {
                        states = states.push(*self);
                        evs = evs.push(step);
                        assert(evs.drop_last() =~= old_evs);
                        assert forall|i: int| 0 <= i < k + 1 implies #[trigger] Connection::packet_handled(
                            states[i],
                            all[i],
                            time,
                            ip_list@,
                            states[i + 1],
                            evs[i],
                        ) by {
                            if i < k {
                                assert(states[i] == old_states[i] && states[i + 1] == old_states[i + 1]);
                                assert(evs[i] == old_evs[i]);
                            }
                        }
                    }
                    events.append(&mut new_events);
                    k = k + 1;
                }
                assert(all.skip(k as int).len() == 0);
                assert(Connection::packets_trace(all, time, ip_list@, states, evs));
                events
            },
        }
    }

    /// Handles a connection message. Returns `false` for a packet that
    /// belongs to the user, which is left alone; otherwise the events the
    /// message gives are appended to `events`.
    fn handle_connection_related_packet(
        &mut self,
        packet: &Packet,
        time: u64,
        ip_list: &Vec<SocketAddress>,
        events: &mut Vec<PeerEvent>,
    ) -> (r: bool)
        requires
            old(self).wf(),
            old(events)@.len() == 0,
        ensures
            final(self).wf(),
            Connection::same_identity(*old(self), *final(self)),
            !r ==> *final(self) == *old(self) && final(events)@.len() == 0,
            Connection::packet_handled(
                *old(self),
                *packet,
                time,
                ip_list@,
                *final(self),
                if r {
                    final(events)@
                } else {
                    seq![PeerEvent::Packet(*packet)]
                },
            ),
    {
        let payload = packet.payload();
        if payload.len() == 0 {
            return true;
        }
        let id = MessageId::try_from(payload[0]);
        if self.state == ConnectionState::UnverifiedSender {
            match id {
                Ok(MessageId::ConnectionRequest) => self.handle_connection_request(payload, time, ip_list),
                _ => {},
            }
        } else {
            match id {
                Ok(MessageId::ConnectionRequest) => {},
                Ok(MessageId::NewIncomingConnection) => self.handle_new_incoming_connection(payload, time, events),
                Ok(MessageId::ConnectedPong) => {},
                Ok(MessageId::ConnectedPing) => self.handle_connected_ping(payload, time),
                Ok(MessageId::DisconnectionNotification) => {},
                Ok(MessageId::DetectLostConnections) => {},
                Ok(MessageId::InvalidPassword) => {},
                Ok(MessageId::ConnectionRequestAccepted) => {},
                _ => {
                    return false;
                },
            }
        }
        true
    }

    /// Accepts a connection request and sends the acceptance.
    fn handle_connection_request(&mut self, payload: &[u8], time: u64, ip_list: &Vec<SocketAddress>)
        requires
            old(self).wf(),
        ensures
            final(self).wf(),
            Connection::connection_request_handled(*old(self), payload@, time, ip_list@, *final(self)),
    {
        let mut reader = DataReader::new(payload);
        match ConnectionRequestMessage::read_message(&mut reader) {
            Ok(connection_request) => {
                // The proof, client key and password are not checked.
                self.state = ConnectionState::HandlingConnectionRequest;
                let message = ConnectionRequestAcceptedMessage {
                    client_addr: self.remote_addr,
                    client_index: 0,
                    ip_list: copy_addrs(ip_list),
                    client_time: connection_request.time,
                    server_time: self.get_peer_time(time),
                };
                let mut bytes: Vec<u8> = Vec::new();
                let _ = message.write_message(&mut bytes);
                self.send_connected_message(time, bytes, Reliability::Reliable, PacketOrdering::Ordered(0));
            },
            Err(_) => {},
        }
    }

    /// Completes the handshake on the remote peer's confirmation.
    fn handle_new_incoming_connection(&mut self, payload: &[u8], time: u64, events: &mut Vec<PeerEvent>)
        requires
            old(self).wf(),
            old(events)@.len() == 0,
        ensures
            final(self).wf(),
            Connection::new_incoming_connection_handled(
                *old(self),
                payload@,
                time,
                *final(self),
                final(events)@,
            ),
    {
        let mut reader = DataReader::new(payload);
        match NewIncomingConnectionMessage::read_message(&mut reader) {
            Ok(_incoming_connection) => {
                if self.state == ConnectionState::HandlingConnectionRequest {
                    self.state = ConnectionState::Connected;
                    self.send_connected_ping(time);
                    events.push(
                        PeerEvent::IncomingConnection(
                            IncomingConnection::new(self.remote_addr, self.remote_guid),
                        ),
                    );
                }
            },
            Err(_) => {},
        }
    }

    /// Answers a connected ping with a pong.
    fn handle_connected_ping(&mut self, payload: &[u8], time: u64)
        requires
            old(self).wf(),
        ensures
            final(self).wf(),
            Connection::connected_ping_handled(*old(self), payload@, time, *final(self)),
    {
        let mut reader = DataReader::new(payload);
        match ConnectedPingMessage::read_message(&mut reader) {
            Ok(ping) => {
                let pong = ConnectedPongMessage {
                    send_ping_time: ping.time,
                    send_pong_time: self.get_peer_time(time),
                };
                let mut bytes: Vec<u8> = Vec::new();
                let _ = pong.write_message(&mut bytes);
                self.send_connected_message(time, bytes, Reliability::Unreliable, PacketOrdering::Unordered);
            },
            Err(_) => {},
        }
    }

    /// Sends a connected ping.
    fn send_connected_ping(&mut self, time: u64)
        requires
            old(self).wf(),
        ensures
            final(self).wf(),
            Connection::message_sent(
                *old(self),
                time,
                (ConnectedPingMessage { time: old(self).peer_time(time) }).spec_bytes(),
                Reliability::Unreliable,
                PacketOrdering::Unordered,
                *final(self),
            ),
    {
        let ping = ConnectedPingMessage { time: self.get_peer_time(time) };
        let mut bytes: Vec<u8> = Vec::new();
        let _ = ping.write_message(&mut bytes);
        self.send_connected_message(time, bytes, Reliability::Unreliable, PacketOrdering::Unordered);
    }

    /// The whole milliseconds since the local peer was created.
    fn get_peer_time(&self, time: u64) -> (r: u64)
        ensures
            r == self.peer_time(time),
    {
        whole_millis(time.saturating_sub(self.peer_creation_time))
    }

    /// Sends an encoded message with the highest priority.
    fn send_connected_message(
        &mut self,
        time: u64,
        payload: Vec<u8>,
        reliability: Reliability,
        ordering: PacketOrdering,
    )
        requires
            old(self).wf(),
        ensures
            final(self).wf(),
            Connection::message_sent(*old(self), time, payload@, reliability, ordering, *final(self)),
    {
        self.reliability_layer.send_packet(time, Priority::Highest, reliability, ordering, None, payload);
    }

    /// Whether the connection should be dropped at `time`: the remote
    /// peer did not complete the handshake within the incoming connection
    /// timeout, or the connection is dead (see `is_ack_timeout`).
    pub fn should_drop(&self, time: u64, config: &Config) -> (r: bool)
        ensures
            r == self.spec_should_drop(time, *config),
    {
        if (self.state == ConnectionState::UnverifiedSender || self.state
            == ConnectionState::HandlingConnectionRequest) && (whole_millis(
            time.saturating_sub(self.connection_time),
        ) as u128) > config.incoming_connection_timeout_in_ms {
            true
        } else if self.reliability_layer.is_ack_timeout(time, config) {
            true
        } else {
            false
        }
    }
}

/// A copy of the addresses.
fn copy_addrs(addrs: &Vec<SocketAddress>) -> (r: Vec<SocketAddress>)
    ensures
        r@ == addrs@,
{
    let mut r: Vec<SocketAddress> = Vec::new();
    let mut i: usize = 0;
    while i < addrs.len()
        invariant
            i <= addrs@.len(),
            r@ == addrs@.take(i as int),
        decreases addrs@.len() - i,
    {
        r.push(addrs[i]);
        i = i + 1;
        assert(r@ =~= addrs@.take(i as int));
    }
    assert(addrs@.take(i as int) =~= addrs@);
    r
}

} // verus!
