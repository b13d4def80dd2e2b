use std::convert::TryFrom;

use raknet::datagram_header::DatagramHeader;
use raknet::number::DatagramSequenceNumber;
use raknet::reader::DataReader;

#[test]
fn read_ack_header_with_data_arrival_rate() {
    let payload = [0b1110_0000u8, 0x40, 0xa0, 0x00, 0x00];
    let mut reader = DataReader::new(&payload);

    let header = DatagramHeader::read(&mut reader).expect("Couldn't read header");

    assert!(matches!(header, DatagramHeader::Ack { data_arrival_rate: Some(rate) } if f32::from_bits(rate) == 5.0));
}

#[test]
fn read_ack_header_without_data_arrival_rate() {
    let payload = [0b1100_0000u8];
    let mut reader = DataReader::new(&payload);

    let header = DatagramHeader::read(&mut reader).expect("Couldn't read header");

    assert!(matches!(header, DatagramHeader::Ack { data_arrival_rate: None }));
}

#[test]
fn read_nack_header() {
    let payload = [0b1010_0000u8];
    let mut reader = DataReader::new(&payload);

    let header = DatagramHeader::read(&mut reader).expect("Couldn't read header");

    assert!(matches!(header, DatagramHeader::Nack));
}

#[test]
fn read_packet_header() {
    let payload = [0b1000_0000u8, 0x56, 0x34, 0x12];
    let mut reader = DataReader::new(&payload);

    let header = DatagramHeader::read(&mut reader).expect("Couldn't read header");

    let expected_datagram_number = DatagramSequenceNumber::try_from(0x123456u32).unwrap();
    assert!(matches!(header, DatagramHeader::Packet { is_packet_pair, is_continuous_send, needs_data_arrival_rate, datagram_number }
        if !is_packet_pair && !is_continuous_send && !needs_data_arrival_rate && datagram_number == expected_datagram_number));
}

#[test]
fn read_packet_header_packet_pair() {
    let payload = [0b1001_0000u8, 0x56, 0x34, 0x12];
    let mut reader = DataReader::new(&payload);

    let header = DatagramHeader::read(&mut reader).expect("Couldn't read header");

    let expected_datagram_number = DatagramSequenceNumber::try_from(0x123456u32).unwrap();
    assert!(matches!(header, DatagramHeader::Packet { is_packet_pair, is_continuous_send, needs_data_arrival_rate, datagram_number }
        if is_packet_pair && !is_continuous_send && !needs_data_arrival_rate && datagram_number == expected_datagram_number));
}    

#[test]
fn read_packet_header_continuous_send() {
    let payload = [0b1000_1000u8, 0x56, 0x34, 0x12];
    let mut reader = DataReader::new(&payload);

    let header = DatagramHeader::read(&mut reader).expect("Couldn't read header");

    let expected_datagram_number = DatagramSequenceNumber::try_from(0x123456u32).unwrap();
    assert!(matches!(header, DatagramHeader::Packet { is_packet_pair, is_continuous_send, needs_data_arrival_rate, datagram_number }
        if !is_packet_pair && is_continuous_send && !needs_data_arrival_rate && datagram_number == expected_datagram_number));
}        

#[test]
fn read_packet_header_needs_data_arrival_rate() {
    let payload = [0b1000_0100u8, 0x56, 0x34, 0x12];
    let mut reader = DataReader::new(&payload);

    let header = DatagramHeader::read(&mut reader).expect("Couldn't read header");

    let expected_datagram_number = DatagramSequenceNumber::try_from(0x123456u32).unwrap();
    assert!(matches!(header, DatagramHeader::Packet { is_packet_pair, is_continuous_send, needs_data_arrival_rate, datagram_number }
        if !is_packet_pair && !is_continuous_send && needs_data_arrival_rate && datagram_number == expected_datagram_number));
}  

#[test]
fn write_ack_header_with_data_arrival_rate() {
    let header = DatagramHeader::Ack { data_arrival_rate: Some(5.0f32.to_bits()) };
    let mut payload = Vec::new();

    header.write(&mut payload).expect("Couldn't write header");

    assert_eq!(payload, vec![0b1110_0000u8, 0x40, 0xa0, 0x00, 0x00]);
}

#[test]
fn write_ack_header_without_data_arrival_rate() {
    let header = DatagramHeader::Ack { data_arrival_rate: None };
    let mut payload = Vec::new();

    header.write(&mut payload).expect("Couldn't write header");

    assert_eq!(payload, vec![0b1100_0000u8]);
}

#[test]
fn write_nack_header() {
    let header = DatagramHeader::Nack;
    let mut payload = Vec::new();

    header.write(&mut payload).expect("Couldn't write header");

    assert_eq!(payload, vec![0b1010_0000u8]);
}

#[test]
fn write_packet_header() {
    let header = DatagramHeader::Packet {
        is_packet_pair: false,
        is_continuous_send: false,
        needs_data_arrival_rate: false,
        datagram_number: DatagramSequenceNumber::try_from(0x123456u32).unwrap()
    };
    let mut payload = Vec::new();

    header.write(&mut payload).expect("Couldn't write header");

    assert_eq!(payload, vec![0b1000_0000u8, 0x56, 0x34, 0x12]);
}

#[test]
fn write_packet_header_packet_pair() {
    let header = DatagramHeader::Packet {
        is_packet_pair: true,
        is_continuous_send: false,
        needs_data_arrival_rate: false,
        datagram_number: DatagramSequenceNumber::try_from(0x123456u32).unwrap()
    };
    let mut payload = Vec::new();

    header.write(&mut payload).expect("Couldn't write header");

    assert_eq!(payload, vec![0b1001_0000u8, 0x56, 0x34, 0x12]);
}    

#[test]
fn write_packet_header_continuous_send() {
    let header = DatagramHeader::Packet {
        is_packet_pair: false,
        is_continuous_send: true,
        needs_data_arrival_rate: false,
        datagram_number: DatagramSequenceNumber::try_from(0x123456u32).unwrap()
    };
    let mut payload = Vec::new();

    header.write(&mut payload).expect("Couldn't write header");

    assert_eq!(payload, vec![0b1000_1000u8, 0x56, 0x34, 0x12]);
}        

#[test]
fn write_packet_header_needs_data_arrival_rate() {
    let header = DatagramHeader::Packet {
        is_packet_pair: false,
        is_continuous_send: false,
        needs_data_arrival_rate: true,
        datagram_number: DatagramSequenceNumber::try_from(0x123456u32).unwrap()
    };
    let mut payload = Vec::new();

    header.write(&mut payload).expect("Couldn't write header");

    assert_eq!(payload, vec![0b1000_0100u8, 0x56, 0x34, 0x12]);
}

#[test]
fn read_header_without_valid_flag_fails() {
    let payload = [0b0100_0000u8];
    let mut reader = DataReader::new(&payload);
    assert_eq!(
        DatagramHeader::read(&mut reader),
        Err(raknet::error::Error::ReadError(raknet::error::ReadError::InvalidHeader))
    );
}

#[test]
fn write_then_read_packet_header() {
    let header = DatagramHeader::Packet {
        is_packet_pair: true,
        is_continuous_send: false,
        needs_data_arrival_rate: true,
        datagram_number: DatagramSequenceNumber::from_masked_u32(0xABCDEF),
    };
    let mut payload = Vec::new();
    header.write(&mut payload).expect("Couldn't write header");
    let mut reader = DataReader::new(&payload);
    assert_eq!(DatagramHeader::read(&mut reader), Ok(header));
}
