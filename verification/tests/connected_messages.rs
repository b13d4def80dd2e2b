use raknet::address::SocketAddress;
use raknet::message_ids::MessageId;
use raknet::messages::{
    ConnectErrorMessage, ConnectedPingMessage, ConnectedPongMessage, ConnectionRequestAcceptedMessage,
    ConnectionRequestMessage, NewIncomingConnectionMessage, OpenConnectionReply2Message,
};
use raknet::reader::DataReader;

#[test]
fn write_connected_ping() {
    let mut buf = Vec::new();
    ConnectedPingMessage { time: 0x0102030405060708 }.write_message(&mut buf).expect("ping");
    assert_eq!(buf, vec![0x00, 0x01, 0x02, 0x03, 0x04, 0x05, 0x06, 0x07, 0x08]);
    assert_eq!(ConnectedPingMessage::read_message(&mut DataReader::new(&buf)), Ok(ConnectedPingMessage { time: 0x0102030405060708 }));
}

#[test]
fn write_connected_pong() {
    let mut buf = Vec::new();
    ConnectedPongMessage { send_ping_time: 1, send_pong_time: 2 }.write_message(&mut buf).expect("pong");
    assert_eq!(buf, vec![0x03, 0, 0, 0, 0, 0, 0, 0, 1, 0, 0, 0, 0, 0, 0, 0, 2]);
}

#[test]
fn read_connection_request() {
    let buf = vec![0x09, 0, 0, 0, 0, 0, 0, 0, 5, 0, 0, 0, 0, 0, 0, 0, 6, 0x00, 0xAA];
    let m = ConnectionRequestMessage::read_message(&mut DataReader::new(&buf)).expect("request");
    assert_eq!(m.guid, 5);
    assert_eq!(m.time, 6);
    assert!(!m.use_security);
    assert_eq!(m.remaining, vec![0xAA]);
}

#[test]
fn connection_request_accepted_roundtrip() {
    let message = ConnectionRequestAcceptedMessage {
        client_addr: SocketAddress::v4([1, 2, 3, 4], 5),
        client_index: 0,
        ip_list: vec![SocketAddress::v4([127, 0, 0, 1], 19132); 10],
        client_time: 11,
        server_time: 12,
    };
    let mut buf = Vec::new();
    message.write_message(&mut buf).expect("accepted");
    assert_eq!(buf[0], 0x10);
    assert_eq!(buf.len(), 1 + 7 + 2 + 70 + 8 + 8);
    let read = ConnectionRequestAcceptedMessage::read_message(&mut DataReader::new(&buf)).expect("read");
    assert_eq!(read, message);
}

#[test]
fn new_incoming_connection_roundtrip() {
    let message = NewIncomingConnectionMessage {
        server_addr: SocketAddress::v4([1, 2, 3, 4], 5),
        internal_addrs: vec![SocketAddress::v4([0, 0, 0, 0], 0); 10],
        ping_time: 7,
        pong_time: 8,
    };
    let mut buf = Vec::new();
    message.write_message(&mut buf).expect("message");
    let read = NewIncomingConnectionMessage::read_message(&mut DataReader::new(&buf)).expect("read");
    assert_eq!(read, message);
}

#[test]
fn write_connect_error() {
    let mut buf = Vec::new();
    ConnectErrorMessage { message_id: MessageId::AlreadyConnected, guid: 1 }.write_message(&mut buf).expect("error");
    assert_eq!(buf[0], 0x12);
    assert_eq!(buf.len(), 1 + 16 + 8);
    assert_eq!(
        ConnectErrorMessage::read_message(&mut DataReader::new(&buf)),
        Ok(ConnectErrorMessage { message_id: MessageId::AlreadyConnected, guid: 1 })
    );
}

#[test]
fn open_connection_reply_2_roundtrip() {
    let message = OpenConnectionReply2Message {
        guid: 9,
        client_address: SocketAddress::v4([10, 1, 1, 1], 300),
        mtu: 1400,
        challenge_answer: None,
    };
    let mut buf = Vec::new();
    message.write_message(&mut buf).expect("reply 2");
    let read = OpenConnectionReply2Message::read_message(&mut DataReader::new(&buf)).expect("read");
    assert_eq!(read, message);
}

#[test]
fn message_id_roundtrip() {
    for b in 0u8..=0xFF {
        if let Ok(id) = MessageId::try_from(b) {
            assert_eq!(u8::from(id), b);
        }
    }
    assert!(MessageId::try_from(0x0Au8).is_err());
}
