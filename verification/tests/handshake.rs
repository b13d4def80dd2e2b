use raknet::address::SocketAddress;
use raknet::config::Config;
use raknet::connection_manager::ConnectionManager;
use raknet::datagram_header::DatagramHeader;
use raknet::events::PeerEvent;
use raknet::internal_packet::{InternalOrdering, InternalPacket, InternalReliability};
use raknet::messages::{
    ConnectedPingMessage, ConnectedPongMessage, ConnectionRequestAcceptedMessage,
    ConnectionRequestMessage, NewIncomingConnectionMessage, OpenConnectionRequest2Message,
};
use raknet::number::{DatagramSequenceNumber, MessageNumber};
use raknet::packet_datagram::PacketDatagram;
use raknet::reader::DataReader;

const OWN_GUID: u64 = 0x0102030405060708;
const REMOTE_GUID: u64 = 0x1111;
const MS: u64 = 1_000_000;
const NOW: u64 = 50_000 * MS;

fn datagram(number: u32, message_number: u32, payload: Vec<u8>) -> Vec<u8> {
    let mut d = PacketDatagram::new(DatagramSequenceNumber::from_masked_u32(number));
    d.push(InternalPacket::new(
        0,
        InternalReliability::Reliable(Some(MessageNumber::from_masked_u32(message_number))),
        InternalOrdering::Unordered,
        None,
        None,
        payload,
    ));
    let mut buf = Vec::new();
    d.write(&mut buf).expect("datagram");
    buf
}

fn packets_of(datagram: &[u8]) -> Vec<Vec<u8>> {
    let mut reader = DataReader::new(datagram);
    let mut out = Vec::new();
    if let Ok(DatagramHeader::Packet { .. }) = DatagramHeader::read(&mut reader) {
        while reader.has_more() {
            let p = InternalPacket::read(0, &mut reader).expect("packet");
            out.push(p.payload().to_vec());
        }
    }
    out
}

fn connected_manager(remote: SocketAddress) -> ConnectionManager {
    let mut config = Config::default();
    config.guid = OWN_GUID;
    let mut manager = ConnectionManager::new(config, 0, vec![SocketAddress::v4([127, 0, 0, 1], 19132); 10]);
    let mut buf = Vec::new();
    OpenConnectionRequest2Message { cookie_and_challenge: None, binding_address: remote, mtu: 1400, guid: REMOTE_GUID }
        .write_message(&mut buf)
        .expect("request 2");
    let _ = manager.process_datagram(NOW, remote, &buf);
    manager
}

#[test]
fn connection_request_is_accepted_and_handshake_completes() {
    let remote = SocketAddress::v4([10, 0, 0, 2], 4000);
    let mut manager = connected_manager(remote);

    let mut request = Vec::new();
    ConnectionRequestMessage { guid: REMOTE_GUID, time: 77, use_security: false, remaining: vec![] }
        .write_message(&mut request)
        .expect("request");
    let (reply, events) = manager.process_datagram(NOW + 1 * MS, remote, &datagram(0, 0, request));
    assert!(reply.is_none());
    assert!(events.is_empty());

    let out = manager.update(NOW + 1 * MS);
    let payloads: Vec<Vec<u8>> = out.iter().flat_map(|(d, _)| packets_of(d)).collect();
    let accepted = payloads.iter().find(|p| p.first() == Some(&0x10)).expect("acceptance sent");
    let message = ConnectionRequestAcceptedMessage::read_message(&mut DataReader::new(accepted)).expect("acceptance");
    assert_eq!(message.client_addr, remote);
    assert_eq!(message.client_time, 77);
    assert_eq!(message.server_time, (NOW + 1 * MS) / MS);
    assert!(out.iter().all(|(_, addr)| *addr == remote));

    let mut confirm = Vec::new();
    NewIncomingConnectionMessage {
        server_addr: SocketAddress::v4([127, 0, 0, 1], 19132),
        internal_addrs: vec![SocketAddress::v4([0, 0, 0, 0], 0); 10],
        ping_time: 1,
        pong_time: 2,
    }
    .write_message(&mut confirm)
    .expect("confirmation");
    let (_, events) = manager.process_datagram(NOW + 2 * MS, remote, &datagram(1, 1, confirm));
    assert_eq!(events.len(), 1);
    match &events[0] {
        PeerEvent::IncomingConnection(c) => {
            assert_eq!(c.addr(), remote);
            assert_eq!(c.guid(), REMOTE_GUID);
        },
        _ => panic!("expected an incoming connection"),
    }
}

#[test]
fn user_packets_before_handshake_are_dropped_and_after_are_delivered() {
    let remote = SocketAddress::v4([10, 0, 0, 3], 4000);
    let mut manager = connected_manager(remote);
    let (_, events) = manager.process_datagram(NOW, remote, &datagram(0, 0, vec![0x86, 1, 2]));
    assert!(events.is_empty());
}

#[test]
fn connected_ping_is_answered_with_pong() {
    let remote = SocketAddress::v4([10, 0, 0, 4], 4000);
    let mut manager = connected_manager(remote);
    let mut request = Vec::new();
    ConnectionRequestMessage { guid: REMOTE_GUID, time: 1, use_security: false, remaining: vec![] }
        .write_message(&mut request)
        .expect("request");
    let _ = manager.process_datagram(NOW, remote, &datagram(0, 0, request));
    let mut ping = Vec::new();
    ConnectedPingMessage { time: 1234 }.write_message(&mut ping).expect("ping");
    let _ = manager.process_datagram(NOW + 3 * MS, remote, &datagram(1, 1, ping));
    let out = manager.update(NOW + 3 * MS);
    let payloads: Vec<Vec<u8>> = out.iter().flat_map(|(d, _)| packets_of(d)).collect();
    let pong = payloads.iter().find(|p| p.first() == Some(&0x03)).expect("pong sent");
    let pong = ConnectedPongMessage::read_message(&mut DataReader::new(pong)).expect("pong");
    assert_eq!(pong.send_ping_time, 1234);
    assert_eq!(pong.send_pong_time, (NOW + 3 * MS) / MS);
}

#[test]
fn duplicate_datagram_delivers_nothing_twice() {
    let remote = SocketAddress::v4([10, 0, 0, 5], 4000);
    let mut manager = connected_manager(remote);
    let mut request = Vec::new();
    ConnectionRequestMessage { guid: REMOTE_GUID, time: 1, use_security: false, remaining: vec![] }
        .write_message(&mut request)
        .expect("request");
    let _ = manager.process_datagram(NOW, remote, &datagram(0, 0, request));
    let mut confirm = Vec::new();
    NewIncomingConnectionMessage {
        server_addr: SocketAddress::v4([127, 0, 0, 1], 19132),
        internal_addrs: vec![SocketAddress::v4([0, 0, 0, 0], 0); 10],
        ping_time: 1,
        pong_time: 2,
    }
    .write_message(&mut confirm)
    .expect("confirmation");
    let _ = manager.process_datagram(NOW, remote, &datagram(1, 1, confirm));
    let user = datagram(2, 2, vec![0x86, 9]);
    let (_, first) = manager.process_datagram(NOW, remote, &user);
    let (_, second) = manager.process_datagram(NOW, remote, &user);
    assert_eq!(first.len(), 1);
    match &first[0] {
        PeerEvent::Packet(p) => {
            assert_eq!(p.payload(), &[0x86, 9]);
            assert_eq!(p.addr(), remote);
            assert_eq!(p.guid(), REMOTE_GUID);
        },
        _ => panic!("expected a packet"),
    }
    assert!(second.is_empty());
}
