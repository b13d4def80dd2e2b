use raknet::address::SocketAddress;
use raknet::error::{Error, ReadError};
use raknet::messages::{
    IncompatibleProtocolVersionMessage, OpenConnectionReply1Message, OpenConnectionRequest1Message,
    OpenConnectionRequest2Message, UnconnectedPingMessage, UnconnectedPongMessage,
};
use raknet::reader::DataReader;

#[test]
fn read_unconnected_ping() {
    let buf = vec![
        0x01, // Message ID: Unconnected ping
        0x01, 0x23, 0x45, 0x67, 0x89, 0xAB, 0xCD, 0xEF, // Time: 0x0123456789ABCDEF
        0x00, 0xFF, 0xFF, 0x00, 0xFE, 0xFE, 0xFE, 0xFE, 0xFD, 0xFD, 0xFD, 0xFD, 0x12, 0x34, 0x56, 0x78, // Offline message ID
        0x88, 0x77, 0x66, 0x55, 0x44, 0x33, 0x22, 0x11, // Client guid: 0x8877665544332211
    ];
    let mut reader = DataReader::new(&buf);

    let ping = UnconnectedPingMessage::read_message(&mut reader).expect("Failed to read unconnected ping");

    assert_eq!(0x0123456789ABCDEF, ping.time);
    assert_eq!(0x8877665544332211, ping.client_guid);
}

#[test]
fn read_unconnected_ping_invalid_offline_message_id() {
    let buf = vec![
        0x01, // Message ID: Unconnected ping
        0x01, 0x23, 0x45, 0x67, 0x89, 0xAB, 0xCD, 0xEF, // Time: 0x0123456789ABCDEF
        0xAA, 0xAA, 0xAA, 0xAA, 0xAA, 0xAA, 0xAA, 0xAA, 0xFD, 0xFD, 0xFD, 0xFD, 0x12, 0x34, 0x56, 0x78, // INVALID Offline message ID
        0x88, 0x77, 0x66, 0x55, 0x44, 0x33, 0x22, 0x11, // Client guid: 0x8877665544332211
    ];
    let mut reader = DataReader::new(&buf);

    let result = UnconnectedPingMessage::read_message(&mut reader);

    match result {
        Ok(_) => panic!("Message read even though offline message ID was incorrect"),
        Err(Error::ReadError(ReadError::InvalidOfflineMessageId)) => {},
        _ => panic!("Invalid error reading message with invalid message ID"),
    }
}    

#[test]
fn write_unconnected_ping() {
    let ping = UnconnectedPingMessage {
        time: 0x0123456789ABCDEF,
        client_guid: 0x8877665544332211,
    };
    let mut buf = Vec::new();

    ping.write_message(&mut buf).expect("Could not write ping message");

    assert_eq!(vec![
        0x01, // Message ID: Unconnected ping
        0x01, 0x23, 0x45, 0x67, 0x89, 0xAB, 0xCD, 0xEF, // Time: 0x0123456789ABCDEF
        0x00, 0xFF, 0xFF, 0x00, 0xFE, 0xFE, 0xFE, 0xFE, 0xFD, 0xFD, 0xFD, 0xFD, 0x12, 0x34, 0x56, 0x78, // Offline message ID
        0x88, 0x77, 0x66, 0x55, 0x44, 0x33, 0x22, 0x11, // Client guid: 0x8877665544332211
    ],
    buf);

}

#[test]
fn read_unconnected_pong() {
    let buf = vec![
        0x1C, // Message ID: Unconnected pong
        0x01, 0x23, 0x45, 0x67, 0x89, 0xAB, 0xCD, 0xEF, // Time: 0x0123456789ABCDEF
        0x88, 0x77, 0x66, 0x55, 0x44, 0x33, 0x22, 0x11, // Guid: 0x8877665544332211
        0x00, 0xFF, 0xFF, 0x00, 0xFE, 0xFE, 0xFE, 0xFE, 0xFD, 0xFD, 0xFD, 0xFD, 0x12, 0x34, 0x56, 0x78, // Offline message ID
        0x98, 0x76, 0x54, 0x32, // Data
    ];
    let mut reader = DataReader::new(&buf);

    let pong = UnconnectedPongMessage::read_message(&mut reader).expect("Failed to read unconnected pong");

    assert_eq!(0x0123456789ABCDEF, pong.time);
    assert_eq!(0x8877665544332211, pong.guid);
    assert_eq!(vec![0x98, 0x76, 0x54, 0x32], pong.data);
}

#[test]
fn read_unconnected_pong_empty_data() {
    let buf = vec![
        0x1C, // Message ID: Unconnected pong
        0x01, 0x23, 0x45, 0x67, 0x89, 0xAB, 0xCD, 0xEF, // Time: 0x0123456789ABCDEF
        0x88, 0x77, 0x66, 0x55, 0x44, 0x33, 0x22, 0x11, // Guid: 0x8877665544332211
        0x00, 0xFF, 0xFF, 0x00, 0xFE, 0xFE, 0xFE, 0xFE, 0xFD, 0xFD, 0xFD, 0xFD, 0x12, 0x34, 0x56, 0x78, // Offline message ID
        // Empty data
    ];
    let mut reader = DataReader::new(&buf);

    let pong = UnconnectedPongMessage::read_message(&mut reader).expect("Failed to read unconnected pong");

    assert_eq!(0x0123456789ABCDEF, pong.time);
    assert_eq!(0x8877665544332211, pong.guid);
    assert_eq!(Vec::<u8>::new(), pong.data);
}

#[test]
fn read_unconnected_pong_invalid_offline_message_id() {
    let buf = vec![
        0x1C, // Message ID: Unconnected pong
        0x01, 0x23, 0x45, 0x67, 0x89, 0xAB, 0xCD, 0xEF, // Time: 0x0123456789ABCDEF
        0x88, 0x77, 0x66, 0x55, 0x44, 0x33, 0x22, 0x11, // Guid: 0x8877665544332211
        0xAA, 0xAA, 0xFF, 0x00, 0xFE, 0xFE, 0xFE, 0xFE, 0xFD, 0xFD, 0xFD, 0xFD, 0x12, 0x34, 0x56, 0x78, // INVALID Offline message ID
        0x98, 0x76, 0x54, 0x32, // Data
    ];
    let mut reader = DataReader::new(&buf);

    let result = UnconnectedPongMessage::read_message(&mut reader);

    match result {
        Ok(_) => panic!("Message read even though offline message ID was incorrect"),
        Err(Error::ReadError(ReadError::InvalidOfflineMessageId)) => {},
        _ => panic!("Invalid error reading message with invalid offline message ID"),
    }
}    

#[test]
fn write_unconnected_pong() {
    let pong = UnconnectedPongMessage {
        time: 0x0123456789ABCDEF,
        guid: 0x8877665544332211,
        data: vec![0x98, 0x76, 0x54, 0x32],
    };
    let mut buf = Vec::new();

    pong.write_message(&mut buf).expect("Could not write pong message");

    assert_eq!(vec![
        0x1C, // Message ID: Unconnected pong
        0x01, 0x23, 0x45, 0x67, 0x89, 0xAB, 0xCD, 0xEF, // Time: 0x0123456789ABCDEF
        0x88, 0x77, 0x66, 0x55, 0x44, 0x33, 0x22, 0x11, // Guid: 0x8877665544332211
        0x00, 0xFF, 0xFF, 0x00, 0xFE, 0xFE, 0xFE, 0xFE, 0xFD, 0xFD, 0xFD, 0xFD, 0x12, 0x34, 0x56, 0x78, // Offline message ID
        0x98, 0x76, 0x54, 0x32, // Data
    ],
    buf);
}

#[test]
fn write_unconnected_pong_empty_data() {
    let pong = UnconnectedPongMessage {
        time: 0x0123456789ABCDEF,
        guid: 0x8877665544332211,
        data: vec![],
    };
    let mut buf = Vec::new();

    pong.write_message(&mut buf).expect("Could not write pong message with empty data");

    assert_eq!(vec![
        0x1C, // Message ID: Unconnected pong
        0x01, 0x23, 0x45, 0x67, 0x89, 0xAB, 0xCD, 0xEF, // Time: 0x0123456789ABCDEF
        0x88, 0x77, 0x66, 0x55, 0x44, 0x33, 0x22, 0x11, // Guid: 0x8877665544332211
        0x00, 0xFF, 0xFF, 0x00, 0xFE, 0xFE, 0xFE, 0xFE, 0xFD, 0xFD, 0xFD, 0xFD, 0x12, 0x34, 0x56, 0x78, // Offline message ID
        // Empty data
    ],
    buf);
}

#[test]
fn read_open_connection_request_1() {
    let buf = vec![
        0x05, // Message ID: Open Connection Request 1
        0x00, 0xFF, 0xFF, 0x00, 0xFE, 0xFE, 0xFE, 0xFE, 0xFD, 0xFD, 0xFD, 0xFD, 0x12, 0x34, 0x56, 0x78, // Offline message ID
        0x12, // RakNet protocol version: 0x12
        0x00, 0x00, 0x00, 0x00, 0x00, 0x00, 0x00, 0x00, // Zero padding: 8 bytes
    ];
    let mut reader = DataReader::new(&buf);

    let req1 = OpenConnectionRequest1Message::read_message(&mut reader).expect("Failed to read Open Connection Request 1");

    assert_eq!(0x12, req1.protocol_version);
    assert_eq!(8, req1.padding_length);
}

#[test]
fn read_open_connection_request_1_invalid_offline_message_id() {
    let buf = vec![
        0x05, // Message ID: Open Connection Request 1
        0xAA, 0xAA, 0xFF, 0x00, 0xFE, 0xFE, 0xFE, 0xFE, 0xFD, 0xFD, 0xFD, 0xFD, 0x12, 0x34, 0x56, 0x78, // INVALID Offline message ID
        0x12, // RakNet protocol version: 0x12
        0x00, 0x00, 0x00, 0x00, 0x00, 0x00, 0x00, 0x00, // Zero padding: 8 bytes
    ];
    let mut reader = DataReader::new(&buf);

    let result = OpenConnectionRequest1Message::read_message(&mut reader);

    match result {
        Ok(_) => panic!("Message read even though offline message ID was incorrect"),
        Err(Error::ReadError(ReadError::InvalidOfflineMessageId)) => {},
        _ => panic!("Invalid error reading message with invalid offline message ID"),
    }
}    

#[test]
fn write_open_connection_request_1() {
    let req1 = OpenConnectionRequest1Message {
        protocol_version: 0x34,
        padding_length: 10,
    };
    let mut buf = Vec::new();

    req1.write_message(&mut buf).expect("Could not write Open Connection Request 1");

    assert_eq!(vec![
        0x05, // Message ID: Open Connection Request 1
        0x00, 0xFF, 0xFF, 0x00, 0xFE, 0xFE, 0xFE, 0xFE, 0xFD, 0xFD, 0xFD, 0xFD, 0x12, 0x34, 0x56, 0x78, // Offline message ID
        0x34, // RakNet protocol version: 0x34
        0x00, 0x00, 0x00, 0x00, 0x00, 0x00, 0x00, 0x00, 0x00, 0x00, // Zero padding: 10 bytes
    ],
    buf);
}

#[test]
fn read_open_connection_reply_1_no_security() {
    let buf = vec![
        0x06, // Message ID: Open Connection Reply 1
        0x00, 0xFF, 0xFF, 0x00, 0xFE, 0xFE, 0xFE, 0xFE, 0xFD, 0xFD, 0xFD, 0xFD, 0x12, 0x34, 0x56, 0x78, // Offline message ID
        0x88, 0x77, 0x66, 0x55, 0x44, 0x33, 0x22, 0x11, // Guid: 0x8877665544332211
        0x00, // Use security: false = 0x00
        0x01, 0x23, // MTU: 0x0123
    ];
    let mut reader = DataReader::new(&buf);

    let reply1 = OpenConnectionReply1Message::read_message(&mut reader).expect("Failed to read message");

    assert_eq!(0x8877665544332211, reply1.guid);
    assert_eq!(None, reply1.cookie_and_public_key);
    assert_eq!(0x0123, reply1.mtu);
}

#[test]
fn read_open_connection_reply_1_with_security() {
    let buf = vec![
        0x06, // Message ID: Open Connection Reply 1
        0x00, 0xFF, 0xFF, 0x00, 0xFE, 0xFE, 0xFE, 0xFE, 0xFD, 0xFD, 0xFD, 0xFD, 0x12, 0x34, 0x56, 0x78, // Offline message ID
        0x88, 0x77, 0x66, 0x55, 0x44, 0x33, 0x22, 0x11, // Guid: 0x8877665544332211
        0x01, // Use security: true = 0x01
        0x11, 0x22, 0x33, 0x44, // Cookie (4 bytes)
        1, 2, 3, 4, 5, 6, 7, 8, 9, 0, 1, 2, 3, 4, 5, 6, 7, 8, 9, 0, 1, 2, 3, 4, 5, 6, 7, 8, 9, 0, // Public key (4 bytes)
        1, 2, 3, 4, 5, 6, 7, 8, 9, 0, 1, 2, 3, 4, 5, 6, 7, 8, 9, 0, 1, 2, 3, 4, 5, 6, 7, 8, 9, 0, 1, 2, 3, 4,
        0x01, 0x23, // MTU size: 0x0123
    ];
    let mut reader = DataReader::new(&buf);

    let reply1 = OpenConnectionReply1Message::read_message(&mut reader).expect("Failed to read message");

    assert_eq!(0x8877665544332211, reply1.guid);
    assert_eq!(Some((0x11223344, [
        1, 2, 3, 4, 5, 6, 7, 8, 9, 0, 1, 2, 3, 4, 5, 6, 7, 8, 9, 0, 1, 2, 3, 4, 5, 6, 7, 8, 9, 0,
        1, 2, 3, 4, 5, 6, 7, 8, 9, 0, 1, 2, 3, 4, 5, 6, 7, 8, 9, 0, 1, 2, 3, 4, 5, 6, 7, 8, 9, 0, 1, 2, 3, 4,            
    ])),
    reply1.cookie_and_public_key);
    assert_eq!(0x0123, reply1.mtu);
}

#[test]
fn write_open_connection_reply_1_no_security() {
    let reply1 = OpenConnectionReply1Message {
        guid: 0x8877665544332211,
        cookie_and_public_key: None,
        mtu: 0x0123,
    };
    let mut buf = Vec::new();

    reply1.write_message(&mut buf).expect("Could not write message");

    assert_eq!(vec![
        0x06, // Message ID: Open Connection Reply 1
        0x00, 0xFF, 0xFF, 0x00, 0xFE, 0xFE, 0xFE, 0xFE, 0xFD, 0xFD, 0xFD, 0xFD, 0x12, 0x34, 0x56, 0x78, // Offline message ID
        0x88, 0x77, 0x66, 0x55, 0x44, 0x33, 0x22, 0x11, // Guid: 0x8877665544332211
        0x00, // Use security: false = 0x00
        0x01, 0x23, // MTU size: 0x0123
    ],
    buf);
}

#[test]
fn write_open_connection_reply_1_with_security() {
    let reply1 = OpenConnectionReply1Message {
        guid: 0x8877665544332211,
        cookie_and_public_key: Some((0x11223344,[
            1, 2, 3, 4, 5, 6, 7, 8, 9, 0, 1, 2, 3, 4, 5, 6, 7, 8, 9, 0, 1, 2, 3, 4, 5, 6, 7, 8, 9, 0,
            1, 2, 3, 4, 5, 6, 7, 8, 9, 0, 1, 2, 3, 4, 5, 6, 7, 8, 9, 0, 1, 2, 3, 4, 5, 6, 7, 8, 9, 0, 1, 2, 3, 4,   
        ])),
        mtu: 0x0123,
    };
    let mut buf = Vec::new();

    reply1.write_message(&mut buf).expect("Could not write message");

    assert_eq!(vec![
        0x06, // Message ID: Open Connection Reply 1
        0x00, 0xFF, 0xFF, 0x00, 0xFE, 0xFE, 0xFE, 0xFE, 0xFD, 0xFD, 0xFD, 0xFD, 0x12, 0x34, 0x56, 0x78, // Offline message ID
        0x88, 0x77, 0x66, 0x55, 0x44, 0x33, 0x22, 0x11, // Guid: 0x8877665544332211
        0x01, // Use security: true = 0x01
        0x11, 0x22, 0x33, 0x44, // Cookie (4 bytes)
        1, 2, 3, 4, 5, 6, 7, 8, 9, 0, 1, 2, 3, 4, 5, 6, 7, 8, 9, 0, 1, 2, 3, 4, 5, 6, 7, 8, 9, 0, // Public key (4 bytes)
        1, 2, 3, 4, 5, 6, 7, 8, 9, 0, 1, 2, 3, 4, 5, 6, 7, 8, 9, 0, 1, 2, 3, 4, 5, 6, 7, 8, 9, 0, 1, 2, 3, 4,
        0x01, 0x23, // MTU size: 0x0123
    ],
    buf);
}

#[test]
fn read_open_connection_request_2_no_security() {
    let buf = vec![
        0x07, // Message ID: Open Connection Request 2
        0x00, 0xFF, 0xFF, 0x00, 0xFE, 0xFE, 0xFE, 0xFE, 0xFD, 0xFD, 0xFD, 0xFD, 0x12, 0x34, 0x56, 0x78, // Offline message ID
        0x04, !192, !168, !1, !248, 0x12, 0x34, // Binding address IPv4: 192.168.1.248, port: 0x1234
        0x01, 0x23, // MTU: 0x123
        0x12, 0x34, 0x56, 0x78, 0x9A, 0xBC, 0xDE, 0xF0, // GUID: 0x123456789ABCDEF0
    ];
    let mut reader = DataReader::new(&buf);

    let req2 = OpenConnectionRequest2Message::read_message(&mut reader).expect("Failed to read message");

    assert_eq!(SocketAddress::v4([192, 168, 1, 248], 0x1234), req2.binding_address);
    assert_eq!(0x123, req2.mtu);
    assert_eq!(0x123456789ABCDEF0, req2.guid);
}

#[test]
fn read_open_connection_request_2_with_security_no_challenge() {
    let buf = vec![
        0x07, // Message ID: Open Connection Request 2
        0x00, 0xFF, 0xFF, 0x00, 0xFE, 0xFE, 0xFE, 0xFE, 0xFD, 0xFD, 0xFD, 0xFD, 0x12, 0x34, 0x56, 0x78, // Offline message ID
        0x12, 0x34, 0x56, 0x78, // Cookie: 0x12345678
        0x00, // Client wrote challenge: 0x00 = false
        0x04, !192, !168, !1, !248, 0x12, 0x34, // Binding address IPv4: 192.168.1.248, port: 0x1234
        0x01, 0x23, // MTU: 0x123
        0x12, 0x34, 0x56, 0x78, 0x9A, 0xBC, 0xDE, 0xF0, // GUID: 0x123456789ABCDEF0
    ];
    let mut reader = DataReader::new(&buf);

    let req2 = OpenConnectionRequest2Message::read_message_with_security(&mut reader).expect("Failed to read message");

    assert_eq!(Some((0x12345678u32, None)), req2.cookie_and_challenge);
    assert_eq!(SocketAddress::v4([192, 168, 1, 248], 0x1234), req2.binding_address);
    assert_eq!(0x123, req2.mtu);
    assert_eq!(0x123456789ABCDEF0, req2.guid);
}

#[test]
fn read_open_connection_request_2_with_security_with_challenge() {
    let buf = vec![
        0x07, // Message ID: Open Connection Request 2
        0x00, 0xFF, 0xFF, 0x00, 0xFE, 0xFE, 0xFE, 0xFE, 0xFD, 0xFD, 0xFD, 0xFD, 0x12, 0x34, 0x56, 0x78, // Offline message ID
        0x12, 0x34, 0x56, 0x78, // Cookie: 0x12345678
        0x01, // Client wrote challenge: 0x01 = true
        0x00, 0x01, 0x02, 0x03, 0x04, 0x05, 0x06, 0x07, 0x08, 0x09, 0x0A, 0x0B, 0x0C, 0x0D, 0x0E, 0x0F, // Challenge: 64 bytes
        0x10, 0x11, 0x12, 0x13, 0x14, 0x15, 0x16, 0x17, 0x18, 0x19, 0x1A, 0x1B, 0x1C, 0x1D, 0x1E, 0x1F,
        0x20, 0x21, 0x22, 0x23, 0x24, 0x25, 0x26, 0x27, 0x28, 0x29, 0x2A, 0x2B, 0x2C, 0x2D, 0x2E, 0x2F,
        0x30, 0x31, 0x32, 0x33, 0x34, 0x35, 0x36, 0x37, 0x38, 0x39, 0x3A, 0x3B, 0x3C, 0x3D, 0x3E, 0x3F,
        0x04, !192, !168, !1, !248, 0x12, 0x34, // Binding address IPv4: 192.168.1.248, port: 0x1234
        0x01, 0x23, // MTU: 0x123
        0x12, 0x34, 0x56, 0x78, 0x9A, 0xBC, 0xDE, 0xF0, // GUID: 0x123456789ABCDEF0
    ];
    let mut reader = DataReader::new(&buf);

    let req2 = OpenConnectionRequest2Message::read_message_with_security(&mut reader).expect("Failed to read message");

    assert_eq!(Some((0x12345678u32, Some([
        0x00, 0x01, 0x02, 0x03, 0x04, 0x05, 0x06, 0x07, 0x08, 0x09, 0x0A, 0x0B, 0x0C, 0x0D, 0x0E, 0x0F, // Challenge: 64 bytes
        0x10, 0x11, 0x12, 0x13, 0x14, 0x15, 0x16, 0x17, 0x18, 0x19, 0x1A, 0x1B, 0x1C, 0x1D, 0x1E, 0x1F,
        0x20, 0x21, 0x22, 0x23, 0x24, 0x25, 0x26, 0x27, 0x28, 0x29, 0x2A, 0x2B, 0x2C, 0x2D, 0x2E, 0x2F,
        0x30, 0x31, 0x32, 0x33, 0x34, 0x35, 0x36, 0x37, 0x38, 0x39, 0x3A, 0x3B, 0x3C, 0x3D, 0x3E, 0x3F,
        ]))),
        req2.cookie_and_challenge);
    assert_eq!(SocketAddress::v4([192, 168, 1, 248], 0x1234), req2.binding_address);
    assert_eq!(0x123, req2.mtu);
    assert_eq!(0x123456789ABCDEF0, req2.guid);
}    

#[test]
fn read_incompatible_protocol_version() {
    let buf = vec![
        0x19, // Message ID: Incompatible Protocol Version
        0x23, // Protocol version: 0x23
        0x00, 0xFF, 0xFF, 0x00, 0xFE, 0xFE, 0xFE, 0xFE, 0xFD, 0xFD, 0xFD, 0xFD, 0x12, 0x34, 0x56, 0x78, // Offline message ID
        0x88, 0x77, 0x66, 0x55, 0x44, 0x33, 0x22, 0x11, // Guid: 0x8877665544332211
    ];
    let mut reader = DataReader::new(&buf);

    let message = IncompatibleProtocolVersionMessage::read_message(&mut reader).expect("Failed to message");

    assert_eq!(0x23, message.protocol_version);
    assert_eq!(0x8877665544332211, message.guid);
}

#[test]
fn read_incompatible_protocol_version_invalid_offline_message_id() {
    let buf = vec![
        0x19, // Message ID: Incompatible Protocol Version
        0x23, // Protocol version: 0x23
        0xAA, 0xAA, 0xFF, 0x00, 0xFE, 0xFE, 0xFE, 0xFE, 0xFD, 0xFD, 0xFD, 0xFD, 0x12, 0x34, 0x56, 0x78, // Offline message ID
        0x88, 0x77, 0x66, 0x55, 0x44, 0x33, 0x22, 0x11, // Guid: 0x8877665544332211
    ];
    let mut reader = DataReader::new(&buf);

    let result = IncompatibleProtocolVersionMessage::read_message(&mut reader);

    match result {
        Ok(_) => panic!("Message read even though offline message ID was incorrect"),
        Err(Error::ReadError(ReadError::InvalidOfflineMessageId)) => {},
        _ => panic!("Invalid error reading message with invalid offline message ID"),
    }
}    

#[test]
fn write_incompatible_protocol_version() {
    let message = IncompatibleProtocolVersionMessage {
        protocol_version: 0x23,
        guid: 0x8877665544332211,
    };
    let mut buf = Vec::new();

    message.write_message(&mut buf).expect("Could not write message");

    assert_eq!(vec![
        0x19, // Message ID: Incompatible Protocol Version
        0x23, // Protocol version: 0x23
        0x00, 0xFF, 0xFF, 0x00, 0xFE, 0xFE, 0xFE, 0xFE, 0xFD, 0xFD, 0xFD, 0xFD, 0x12, 0x34, 0x56, 0x78, // Offline message ID
        0x88, 0x77, 0x66, 0x55, 0x44, 0x33, 0x22, 0x11, // Guid: 0x8877665544332211
    ],
    buf);
}
