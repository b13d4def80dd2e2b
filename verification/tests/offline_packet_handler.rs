use raknet::address::SocketAddress;
use raknet::config::Config;
use raknet::connection::{Connection, ConnectionState};
use raknet::message_ids::MessageId;
use raknet::messages::{ConnectErrorMessage, OpenConnectionReply2Message, OpenConnectionRequest2Message};
use raknet::offline_packet_handler::OfflinePacketHandler;
use raknet::reader::DataReader;

const OWN_GUID: u64 = 0xFEDCBA9876453210;
const REMOTE_GUID: u64 = 0xAABBCCDDEEFF0011;
const NOW: u64 = 1_000;

fn create_test_setup() -> (OfflinePacketHandler, Config, Vec<Connection>, SocketAddress, SocketAddress) {
    let mut config = Config::default();
    config.guid = OWN_GUID;
    create_test_setup_with_config(config)
}

fn create_test_setup_with_config(config: Config) -> (OfflinePacketHandler, Config, Vec<Connection>, SocketAddress, SocketAddress) {
    let connections = Vec::new();
    let remote_addr = SocketAddress::v4([192, 168, 1, 1], 19132);
    let own_addr = SocketAddress::v4([127, 0, 0, 1], 19132);
    (OfflinePacketHandler::new(), config, connections, remote_addr, own_addr)
}

fn request_2(own_addr: SocketAddress) -> Vec<u8> {
    let mut payload = Vec::new();
    let message = OpenConnectionRequest2Message {
        cookie_and_challenge: None,
        binding_address: own_addr,
        mtu: 1024,
        guid: REMOTE_GUID,
    };
    message.write_message(&mut payload).expect("Could not write message");
    payload
}

#[test]
fn open_connection_request_2_guid_and_addr_in_use_by_remote() {
    let (handler, config, mut connections, remote_addr, own_addr) = create_test_setup();
    let payload = request_2(own_addr);
    connections.push(Connection::incoming(NOW, 0, remote_addr, REMOTE_GUID, 1024));

    let (handled, reply) = handler.process_offline_packet(NOW, 0, remote_addr, &payload, &config, &mut connections);

    let reply = reply.expect("Datagram not received");
    let message = OpenConnectionReply2Message::read_message(&mut DataReader::new(&reply)).expect("Could not parse message");
    assert_eq!(true, handled);
    assert_eq!(OWN_GUID, message.guid);
    assert_eq!(remote_addr, message.client_address);
    assert_eq!(1024, message.mtu);
    assert_eq!(None, message.challenge_answer);
    assert_eq!(connections.len(), 1);
}

#[test]
fn open_connection_request_2_guid_in_use_by_other() {
    let (handler, config, mut connections, remote_addr, own_addr) = create_test_setup();
    let payload = request_2(own_addr);
    let other_addr = SocketAddress::v4([192, 168, 1, 99], 19132);
    connections.push(Connection::incoming(NOW, 0, other_addr, REMOTE_GUID, 1024));

    let (handled, reply) = handler.process_offline_packet(NOW, 0, remote_addr, &payload, &config, &mut connections);

    let reply = reply.expect("Datagram not received");
    let message = ConnectErrorMessage::read_message(&mut DataReader::new(&reply)).expect("Could not parse message");
    assert_eq!(true, handled);
    assert_eq!(MessageId::AlreadyConnected, message.message_id);
    assert_eq!(OWN_GUID, message.guid);
}

#[test]
fn open_connection_request_2_addr_in_use_with_other_guid() {
    let (handler, config, mut connections, remote_addr, own_addr) = create_test_setup();
    let payload = request_2(own_addr);
    let other_guid: u64 = 0x1111111111111111;
    connections.push(Connection::incoming(NOW, 0, remote_addr, other_guid, 1024));

    let (handled, reply) = handler.process_offline_packet(NOW, 0, remote_addr, &payload, &config, &mut connections);

    let reply = reply.expect("Datagram not received");
    let message = ConnectErrorMessage::read_message(&mut DataReader::new(&reply)).expect("Could not parse message");
    assert_eq!(true, handled);
    assert_eq!(MessageId::AlreadyConnected, message.message_id);
    assert_eq!(OWN_GUID, message.guid);
}

#[test]
fn open_connection_request_2_max_incoming_connections_exceeded() {
    let mut config = Config::default();
    config.guid = OWN_GUID;
    config.max_incoming_connections = 1;
    let (handler, config, mut connections, remote_addr, own_addr) = create_test_setup_with_config(config);
    let payload = request_2(own_addr);
    let other_guid: u64 = 0x1111111111111111;
    let other_addr = SocketAddress::v4([192, 168, 1, 99], 19132);
    let mut connection = Connection::incoming(NOW, 0, other_addr, other_guid, 1024);
    connection.state = ConnectionState::Connected;
    connections.push(connection);

    let (handled, reply) = handler.process_offline_packet(NOW, 0, remote_addr, &payload, &config, &mut connections);

    let reply = reply.expect("Datagram not received");
    let message = ConnectErrorMessage::read_message(&mut DataReader::new(&reply)).expect("Could not parse message");
    assert_eq!(true, handled);
    assert_eq!(MessageId::NoFreeIncomingConnections, message.message_id);
    assert_eq!(OWN_GUID, message.guid);
}

#[test]
fn open_connection_request_2_new_connection_is_added() {
    let (handler, config, mut connections, remote_addr, own_addr) = create_test_setup();
    let payload = request_2(own_addr);

    let (handled, reply) = handler.process_offline_packet(NOW, 7, remote_addr, &payload, &config, &mut connections);

    assert!(handled);
    let reply = reply.expect("Datagram not received");
    let message = OpenConnectionReply2Message::read_message(&mut DataReader::new(&reply)).expect("Could not parse message");
    assert_eq!(1024, message.mtu);
    assert_eq!(connections.len(), 1);
    assert_eq!(connections[0].guid(), REMOTE_GUID);
    assert_eq!(connections[0].mtu(), 1024);
    assert!(connections[0].is_incoming());
    assert_eq!(connections[0].state(), ConnectionState::UnverifiedSender);
}

#[test]
fn short_datagram_is_handled_without_reply() {
    let (handler, config, mut connections, remote_addr, _) = create_test_setup();
    let (handled, reply) = handler.process_offline_packet(NOW, 0, remote_addr, &[0x01, 0x02], &config, &mut connections);
    assert!(handled);
    assert!(reply.is_none());
}

#[test]
fn connected_message_is_not_offline() {
    let (handler, config, mut connections, remote_addr, _) = create_test_setup();
    let (handled, reply) = handler.process_offline_packet(NOW, 0, remote_addr, &[0x84, 0x00, 0x00, 0x00], &config, &mut connections);
    assert!(!handled);
    assert!(reply.is_none());
}

#[test]
fn long_ping_response_is_truncated() {
    let mut handler = OfflinePacketHandler::new();
    handler.set_offline_ping_response(vec![7u8; 500]);
    let mut config = Config::default();
    config.guid = OWN_GUID;
    let mut connections = Vec::new();
    let mut ping = Vec::new();
    raknet::messages::UnconnectedPingMessage { time: 3, client_guid: 4 }.write_message(&mut ping).expect("ping");
    let (_, reply) = handler.process_offline_packet(NOW, 0, SocketAddress::v4([1, 2, 3, 4], 5), &ping, &config, &mut connections);
    let reply = reply.expect("pong");
    let pong = raknet::messages::UnconnectedPongMessage::read_message(&mut DataReader::new(&reply)).expect("pong");
    assert_eq!(pong.data.len(), 399);
    assert_eq!(pong.time, 3);
    assert_eq!(pong.guid, OWN_GUID);
}

#[test]
fn client_only_peer_opens_no_connection() {
    let mut config = Config::default();
    config.guid = OWN_GUID;
    config.max_incoming_connections = 0;
    let (handler, config, mut connections, remote_addr, own_addr) = create_test_setup_with_config(config);
    let payload = request_2(own_addr);

    let (handled, reply) = handler.process_offline_packet(NOW, 0, remote_addr, &payload, &config, &mut connections);

    assert!(handled);
    let reply = reply.expect("Datagram not received");
    let message = ConnectErrorMessage::read_message(&mut DataReader::new(&reply)).expect("Could not parse message");
    assert_eq!(MessageId::NoFreeIncomingConnections, message.message_id);
    assert!(connections.is_empty());

    let mut ping = Vec::new();
    raknet::messages::UnconnectedPingMessage { time: 3, client_guid: 4 }.write_message(&mut ping).expect("ping");
    ping[0] = 0x02;
    let (handled, reply) = handler.process_offline_packet(NOW, 0, remote_addr, &ping, &config, &mut connections);
    assert!(handled);
    assert!(reply.is_none());
    assert!(connections.is_empty());
}
