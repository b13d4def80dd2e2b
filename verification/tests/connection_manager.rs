use raknet::address::SocketAddress;
use raknet::config::Config;
use raknet::connection_manager::ConnectionManager;
use raknet::constants::{RAKNET_PROTOCOL_VERSION, UDP_HEADER_SIZE};
use raknet::messages::{
    IncompatibleProtocolVersionMessage, OpenConnectionReply1Message, OpenConnectionReply2Message,
    OpenConnectionRequest1Message, OpenConnectionRequest2Message, UnconnectedPingMessage,
    UnconnectedPongMessage,
};
use raknet::reader::DataReader;

const OWN_GUID: u64 = 0xFEDCBA9876453210;
const MS: u64 = 1_000_000;
const NOW: u64 = 10_000 * MS;

fn create_connection_manager() -> (ConnectionManager, SocketAddress) {
    let remote_addr = SocketAddress::v4([127, 0, 0, 1], 19132);
    let mut config = Config::default();
    config.guid = OWN_GUID;
    (ConnectionManager::new(config, 0, Vec::new()), remote_addr)
}

#[test]
fn ping_responds_with_pong() {
    let (mut connection_manager, remote_addr) = create_connection_manager();
    let ping = UnconnectedPingMessage {
        time: 0x0123456789ABCDEF,
        client_guid: 0x1122334455667788,
    };
    connection_manager.set_offline_ping_response(vec![0x00, 0x02, 0x41, 0x42]);
    let mut buf = Vec::new();
    ping.write_message(&mut buf).expect("Could not create message");

    let (reply, events) = connection_manager.process_datagram(NOW, remote_addr, &buf);

    let reply = reply.expect("Datagram not received");
    let pong = UnconnectedPongMessage::read_message(&mut DataReader::new(&reply)).expect("Could not parse message");
    assert!(events.is_empty());
    assert_eq!(0x0123456789ABCDEF, pong.time);
    assert_eq!(OWN_GUID, pong.guid);
    assert_eq!(vec![0x00, 0x02, 0x41, 0x42], pong.data);
}

#[test]
fn open_connection_request_1_incompatible_protocol_version() {
    let (mut connection_manager, remote_addr) = create_connection_manager();
    let req1 = OpenConnectionRequest1Message {
        protocol_version: RAKNET_PROTOCOL_VERSION + 1,
        padding_length: 8,
    };
    let mut buf = Vec::new();
    req1.write_message(&mut buf).expect("Could not create message");

    let (reply, _) = connection_manager.process_datagram(NOW, remote_addr, &buf);

    let reply = reply.expect("Datagram not received");
    let message = IncompatibleProtocolVersionMessage::read_message(&mut DataReader::new(&reply)).expect("Could not parse message");
    assert_eq!(RAKNET_PROTOCOL_VERSION, message.protocol_version);
    assert_eq!(OWN_GUID, message.guid);
}

#[test]
fn open_connection_request_1_responds_with_reply_1() {
    let (mut connection_manager, remote_addr) = create_connection_manager();
    let req1 = OpenConnectionRequest1Message {
        protocol_version: RAKNET_PROTOCOL_VERSION,
        padding_length: 400,
    };
    let mut buf = Vec::new();
    req1.write_message(&mut buf).expect("Could not create message");

    let (reply, _) = connection_manager.process_datagram(NOW, remote_addr, &buf);

    let reply = reply.expect("Datagram not received");
    let message = OpenConnectionReply1Message::read_message(&mut DataReader::new(&reply)).expect("Could not parse message");
    assert_eq!(OWN_GUID, message.guid);
    assert_eq!(None, message.cookie_and_public_key);
    assert_eq!(UDP_HEADER_SIZE + 1 + 16 + 1 + 400, message.mtu);
}

#[test]
fn open_connection_request_2_responds_with_reply_2() {
    let (mut connection_manager, remote_addr) = create_connection_manager();
    let req2 = OpenConnectionRequest2Message {
        cookie_and_challenge: None,
        binding_address: SocketAddress::v4([192, 168, 1, 248], 0x1234),
        mtu: 446,
        guid: 0x12345678,
    };
    let mut buf = Vec::new();
    req2.write_message(&mut buf).expect("Could not create message");

    let (reply, _) = connection_manager.process_datagram(NOW, remote_addr, &buf);

    let reply = reply.expect("Datagram not received");
    let message = OpenConnectionReply2Message::read_message(&mut DataReader::new(&reply)).expect("Could not parse message");
    assert_eq!(OWN_GUID, message.guid);
    assert_eq!(remote_addr, message.client_address);
    assert_eq!(446, message.mtu);
    assert_eq!(None, message.challenge_answer);
    assert_eq!(connection_manager.number_of_connections(), 1);
}

#[test]
fn request_1_mtu_is_capped_at_the_largest_mtu() {
    let (mut connection_manager, remote_addr) = create_connection_manager();
    let req1 = OpenConnectionRequest1Message {
        protocol_version: RAKNET_PROTOCOL_VERSION,
        padding_length: 3000,
    };
    let mut buf = Vec::new();
    req1.write_message(&mut buf).expect("Could not create message");
    let (reply, _) = connection_manager.process_datagram(NOW, remote_addr, &buf);
    let message = OpenConnectionReply1Message::read_message(&mut DataReader::new(&reply.expect("reply"))).expect("Could not parse message");
    assert_eq!(1492, message.mtu);
}

#[test]
fn unfinished_handshake_is_dropped_after_timeout() {
    let (mut connection_manager, remote_addr) = create_connection_manager();
    let req2 = OpenConnectionRequest2Message {
        cookie_and_challenge: None,
        binding_address: remote_addr,
        mtu: 576,
        guid: 5,
    };
    let mut buf = Vec::new();
    req2.write_message(&mut buf).expect("Could not create message");
    let _ = connection_manager.process_datagram(NOW, remote_addr, &buf);
    assert_eq!(connection_manager.number_of_connections(), 1);
    let _ = connection_manager.update(NOW + 5_000 * MS);
    assert_eq!(connection_manager.number_of_connections(), 1);
    let _ = connection_manager.update(NOW + 10_001 * MS);
    assert_eq!(connection_manager.number_of_connections(), 0);
}
