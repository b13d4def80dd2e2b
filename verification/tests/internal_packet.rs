use std::convert::TryFrom;

use raknet::internal_packet::{InternalOrdering, InternalPacket, InternalReliability, SplitPacketHeader};
use raknet::number::{MessageNumber, OrderingIndex, SequencingIndex};
use raknet::reader::DataReader;

#[test]
fn read_unreliable_packet() {
    let buf = [
        0b000_0_0000, // Bitflags: bit 7-5: reliability=0=Unreliable, bit 4: has_split_packet=0=false
        0x00, 0x10, // Data bit length: 0x0010=16 bits=2 bytes
        0x12, 0x34, // Data [0x12, 0x34]
    ];
    let mut reader = DataReader::new(&buf);

    let packet = InternalPacket::read(0, &mut reader).expect("Failed to read packet");

    assert!(matches!(packet.reliability(), InternalReliability::Unreliable));
    assert!(matches!(packet.ordering(), InternalOrdering::Unordered));
    assert!(matches!(packet.split_packet_header(), None));
    assert_eq!(packet.payload(), &[0x12, 0x34]);
}

#[test]
fn read_unreliable_split_packet() {
    let buf = [
        0b000_1_0000, // Bitflags: bit 7-5: reliability=0=Unreliable, bit 4: has_split_packet=1=true
        0x00, 0x10, // Data bit length: 0x0010=16 bits=2 bytes
        0x11, 0x22, 0x33, 0x44, // Split packet count: 0x11223344
        0x13, 0x57, // Split packet ID: 0x1357
        0x01, 0x23, 0x45, 0x67, // Split packet index: 0x01234567 
        0x12, 0x34, // Data [0x12, 0x34]
    ];
    let mut reader = DataReader::new(&buf);

    let packet = InternalPacket::read(0, &mut reader).expect("Failed to read packet");

    assert!(matches!(packet.reliability(), InternalReliability::Unreliable));
    assert!(matches!(packet.ordering(), InternalOrdering::Unordered));
    assert!(matches!(packet.split_packet_header(), Some(header)
        if header.split_packet_count() == 0x11223344 &&
            header.split_packet_id() == 0x1357 &&
            header.split_packet_index() == 0x01234567
    ));
    assert_eq!(packet.payload(), &[0x12, 0x34]);
}

#[test]
fn read_unreliable_sequenced_packet() {
    let buf = [
        0b001_0_0000, // Bitflags: bit 7-5: reliability=1=Unreliable Sequenced, bit 4: has_split_packet=0=false
        0x00, 0x10, // Data bit length: 0x0010=16 bits=2 bytes
        0x56, 0x34, 0x12, // Sequencing index: 0x123456
        0x33, 0x22, 0x11, // Ordering index: 0x112233
        0x05, // Ordering channel: 5
        0x12, 0x34, // Data [0x12, 0x34]
    ];
    let mut reader = DataReader::new(&buf);

    let packet = InternalPacket::read(0, &mut reader).expect("Failed to read packet");

    assert!(matches!(packet.reliability(), InternalReliability::Unreliable));
    assert!(matches!(packet.ordering(), InternalOrdering::Sequenced {
        sequencing_index,
        ordering_index,
        ordering_channel_index: 0x05
    } if sequencing_index == SequencingIndex::try_from(0x123456).unwrap() &&
        ordering_index == OrderingIndex::try_from(0x112233).unwrap()
    ));
    assert!(matches!(packet.split_packet_header(), None));
    assert_eq!(packet.payload(), &[0x12, 0x34]);
}    

#[test]
fn read_unreliable_sequenced_split_packet() {
    let buf = [
        0b001_1_0000, // Bitflags: bit 7-5: reliability=1=Unreliable Sequenced, bit 4: has_split_packet=1=true
        0x00, 0x10, // Data bit length: 0x0010=16 bits=2 bytes
        0x56, 0x34, 0x12, // Sequencing index: 0x123456
        0x33, 0x22, 0x11, // Ordering index: 0x112233
        0x05, // Ordering channel: 5
        0x11, 0x22, 0x33, 0x44, // Split packet count: 0x11223344
        0x13, 0x57, // Split packet ID: 0x1357
        0x01, 0x23, 0x45, 0x67, // Split packet index: 0x01234567 
        0x12, 0x34, // Data [0x12, 0x34]
    ];
    let mut reader = DataReader::new(&buf);

    let packet = InternalPacket::read(0, &mut reader).expect("Failed to read packet");

    assert!(matches!(packet.reliability(), InternalReliability::Unreliable));
    assert!(matches!(packet.ordering(), InternalOrdering::Sequenced {
        sequencing_index,
        ordering_index,
        ordering_channel_index: 0x05
    } if sequencing_index == SequencingIndex::try_from(0x123456).unwrap() &&
        ordering_index == OrderingIndex::try_from(0x112233).unwrap()
    ));
    assert!(matches!(packet.split_packet_header(), Some(header)
        if header.split_packet_count() == 0x11223344 &&
            header.split_packet_id() == 0x1357 &&
            header.split_packet_index() == 0x01234567
    ));
    assert_eq!(packet.payload(), &[0x12, 0x34]);
}    

#[test]
fn read_reliable_packet() {
    let buf = [
        0b010_0_0000, // Bitflags: bit 7-5: reliability=2=Reliable, bit 4: has_split_packet=0=false
        0x00, 0x10, // Data bit length: 0x0010=16 bits=2 bytes
        0x56, 0x34, 0x12, // Reliable message number: 0x123456
        0x12, 0x34, // Data [0x12, 0x34]
    ];
    let mut reader = DataReader::new(&buf);

    let packet = InternalPacket::read(0, &mut reader).expect("Failed to read packet");

    assert!(matches!(packet.reliability(), InternalReliability::Reliable(Some(message_number)) if message_number == MessageNumber::try_from(0x123456).unwrap()));
    assert!(matches!(packet.ordering(), InternalOrdering::Unordered));
    assert!(matches!(packet.split_packet_header(), None));
    assert_eq!(packet.payload(), &[0x12, 0x34]);
}

#[test]
fn read_reliable_split_packet() {
    let buf = [
        0b010_1_0000, // Bitflags: bit 7-5: reliability=2=Reliable, bit 4: has_split_packet=1=true
        0x00, 0x10, // Data bit length: 0x0010=16 bits=2 bytes
        0x56, 0x34, 0x12, // Reliable message number: 0x123456
        0x11, 0x22, 0x33, 0x44, // Split packet count: 0x11223344
        0x13, 0x57, // Split packet ID: 0x1357
        0x01, 0x23, 0x45, 0x67, // Split packet index: 0x01234567 
        0x12, 0x34, // Data [0x12, 0x34]
    ];
    let mut reader = DataReader::new(&buf);

    let packet = InternalPacket::read(0, &mut reader).expect("Failed to read packet");

    assert!(matches!(packet.reliability(), InternalReliability::Reliable(Some(message_number)) if message_number == MessageNumber::try_from(0x123456).unwrap()));
    assert!(matches!(packet.ordering(), InternalOrdering::Unordered));
    assert!(matches!(packet.split_packet_header(), Some(header)
        if header.split_packet_count() == 0x11223344 &&
            header.split_packet_id() == 0x1357 &&
            header.split_packet_index() == 0x01234567
    ));
    assert_eq!(packet.payload(), &[0x12, 0x34]);
}

#[test]
fn read_reliable_ordered_packet() {
    let buf = [
        0b011_0_0000, // Bitflags: bit 7-5: reliability=3=Reliable Ordered, bit 4: has_split_packet=0=false
        0x00, 0x10, // Data bit length: 0x0010=16 bits=2 bytes
        0x56, 0x34, 0x12, // Reliable message number: 0x123456
        0x33, 0x22, 0x11, // Ordering index: 0x112233
        0x05, // Ordering channel: 5
        0x12, 0x34, // Data [0x12, 0x34]
    ];
    let mut reader = DataReader::new(&buf);

    let packet = InternalPacket::read(0, &mut reader).expect("Failed to read packet");

    assert!(matches!(packet.reliability(), InternalReliability::Reliable(Some(message_number)) if message_number == MessageNumber::try_from(0x123456).unwrap()));
    assert!(matches!(packet.ordering(), InternalOrdering::Ordered {
        ordering_index,
        ordering_channel_index: 0x05
    } if ordering_index == OrderingIndex::try_from(0x112233).unwrap()));
    assert!(matches!(packet.split_packet_header(), None));
    assert_eq!(packet.payload(), &[0x12, 0x34]);
}    

#[test]
fn read_reliable_ordered_split_packet() {
    let buf = [
        0b011_1_0000, // Bitflags: bit 7-5: reliability=3=Reliable Ordered, bit 4: has_split_packet=1=true
        0x00, 0x10, // Data bit length: 0x0010=16 bits=2 bytes
        0x56, 0x34, 0x12, // Reliable message number: 0x123456
        0x33, 0x22, 0x11, // Ordering index: 0x112233
        0x05, // Ordering channel: 5
        0x11, 0x22, 0x33, 0x44, // Split packet count: 0x11223344
        0x13, 0x57, // Split packet ID: 0x1357
        0x01, 0x23, 0x45, 0x67, // Split packet index: 0x01234567 
        0x12, 0x34, // Data [0x12, 0x34]
    ];
    let mut reader = DataReader::new(&buf);

    let packet = InternalPacket::read(0, &mut reader).expect("Failed to read packet");

    assert!(matches!(packet.reliability(), InternalReliability::Reliable(Some(message_number)) if message_number == MessageNumber::try_from(0x123456).unwrap()));
    assert!(matches!(packet.ordering(), InternalOrdering::Ordered {
        ordering_index,
        ordering_channel_index: 0x05
    } if ordering_index == OrderingIndex::try_from(0x112233).unwrap()));
    assert!(matches!(packet.split_packet_header(), Some(header)
        if header.split_packet_count() == 0x11223344 &&
            header.split_packet_id() == 0x1357 &&
            header.split_packet_index() == 0x01234567
    ));
    assert_eq!(packet.payload(), &[0x12, 0x34]);
}

#[test]
fn read_reliable_sequenced_packet() {
    let buf = [
        0b100_0_0000, // Bitflags: bit 7-5: reliability=4=Reliable Sequenced, bit 4: has_split_packet=0=false
        0x00, 0x10, // Data bit length: 0x0010=16 bits=2 bytes
        0x56, 0x34, 0x12, // Reliable message number: 0x123456
        0x30, 0x20, 0x10, // Sequencing index: 0x102030
        0x33, 0x22, 0x11, // Ordering index: 0x112233
        0x05, // Ordering channel: 5
        0x12, 0x34, // Data [0x12, 0x34]
    ];
    let mut reader = DataReader::new(&buf);

    let packet = InternalPacket::read(0, &mut reader).expect("Failed to read packet");

    assert!(matches!(packet.reliability(), InternalReliability::Reliable(Some(message_number)) if message_number == MessageNumber::try_from(0x123456).unwrap()));
    assert!(matches!(packet.ordering(), InternalOrdering::Sequenced {
        sequencing_index,
        ordering_index,
        ordering_channel_index: 0x05
    } if sequencing_index == SequencingIndex::try_from(0x102030).unwrap() &&
        ordering_index == OrderingIndex::try_from(0x112233).unwrap()
    ));
    assert!(matches!(packet.split_packet_header(), None));
    assert_eq!(packet.payload(), &[0x12, 0x34]);
}

#[test]
fn read_reliable_sequenced_split_packet() {
    let buf = [
        0b100_1_0000, // Bitflags: bit 7-5: reliability=4=Reliable Sequenced, bit 4: has_split_packet=1=true
        0x00, 0x10, // Data bit length: 0x0010=16 bits=2 bytes
        0x56, 0x34, 0x12, // Reliable message number: 0x123456
        0x30, 0x20, 0x10, // Sequencing index: 0x102030
        0x33, 0x22, 0x11, // Ordering index: 0x112233
        0x05, // Ordering channel: 5
        0x11, 0x22, 0x33, 0x44, // Split packet count: 0x11223344
        0x13, 0x57, // Split packet ID: 0x1357
        0x01, 0x23, 0x45, 0x67, // Split packet index: 0x01234567 
        0x12, 0x34, // Data [0x12, 0x34]
    ];
    let mut reader = DataReader::new(&buf);

    let packet = InternalPacket::read(0, &mut reader).expect("Failed to read packet");

    assert!(matches!(packet.reliability(), InternalReliability::Reliable(Some(message_number)) if message_number == MessageNumber::try_from(0x123456).unwrap()));
    assert!(matches!(packet.ordering(), InternalOrdering::Sequenced {
        sequencing_index,
        ordering_index,
        ordering_channel_index: 0x05
    } if sequencing_index == SequencingIndex::try_from(0x102030).unwrap() &&
        ordering_index == OrderingIndex::try_from(0x112233).unwrap()
    ));
    assert!(matches!(packet.split_packet_header(), Some(header)
        if header.split_packet_count() == 0x11223344 &&
            header.split_packet_id() == 0x1357 &&
            header.split_packet_index() == 0x01234567
    ));
    assert_eq!(packet.payload(), &[0x12, 0x34]);
}

#[test]
fn write_unreliable_packet() {
    let packet = InternalPacket::new(0, InternalReliability::Unreliable, InternalOrdering::Unordered, None, None, vec![0x12, 0x34]);
    let mut buf = Vec::new();

    packet.write(&mut buf).expect("Could not write packet");

    assert_eq!(buf, vec![
        0b000_0_0000, // Bitflags: bit 7-5: reliability=0=Unreliable, bit 4: has_split_packet=0=false
        0x00, 0x10, // Data bit length: 0x0010=16 bits=2 bytes
        0x12, 0x34, // Data [0x12, 0x34]
    ]);
}

#[test]
fn write_unreliable_split_packet() {
    let packet = InternalPacket::new(
        0,
        InternalReliability::Unreliable,
        InternalOrdering::Unordered,
        Some(SplitPacketHeader::new(0x11223344, 0x1357, 0x01234567)),
        None,
        vec![0x12, 0x34]);
    let mut buf = Vec::new();

    packet.write(&mut buf).expect("Could not write packet");

    assert_eq!(buf, vec![
        0b000_1_0000, // Bitflags: bit 7-5: reliability=0=Unreliable, bit 4: has_split_packet=1=true
        0x00, 0x10, // Data bit length: 0x0010=16 bits=2 bytes
        0x11, 0x22, 0x33, 0x44, // Split packet count: 0x11223344
        0x13, 0x57, // Split packet ID: 0x1357
        0x01, 0x23, 0x45, 0x67, // Split packet index: 0x01234567 
        0x12, 0x34, // Data [0x12, 0x34]
    ]);
}    

#[test]
fn write_unreliable_sequenced_packet() {
    let packet = InternalPacket::new(
        0,
        InternalReliability::Unreliable,
        InternalOrdering::Sequenced {
            sequencing_index: SequencingIndex::from_masked_u32(0x123456),
            ordering_index: OrderingIndex::from_masked_u32(0x112233),
            ordering_channel_index: 0x05
        },
        None,
        None,
        vec![0x12, 0x34]);
    let mut buf = Vec::new();

    packet.write(&mut buf).expect("Could not write packet");

    assert_eq!(buf, vec![
        0b001_0_0000, // Bitflags: bit 7-5: reliability=1=Unreliable Sequenced, bit 4: has_split_packet=0=false
        0x00, 0x10, // Data bit length: 0x0010=16 bits=2 bytes
        0x56, 0x34, 0x12, // Sequencing index: 0x123456
        0x33, 0x22, 0x11, // Ordering index: 0x112233
        0x05, // Ordering channel: 5
        0x12, 0x34, // Data [0x12, 0x34]
    ]);
}

#[test]
fn write_unreliable_sequenced_split_packet() {
    let packet = InternalPacket::new(
        0,
        InternalReliability::Unreliable,
        InternalOrdering::Sequenced {
            sequencing_index: SequencingIndex::from_masked_u32(0x123456),
            ordering_index: OrderingIndex::from_masked_u32(0x112233),
            ordering_channel_index: 0x05
        },
        Some(SplitPacketHeader::new(0x11223344, 0x1357, 0x01234567)),
        None,
        vec![0x12, 0x34]);
    let mut buf = Vec::new();

    packet.write(&mut buf).expect("Could not write packet");

    assert_eq!(buf, vec![
        0b001_1_0000, // Bitflags: bit 7-5: reliability=1=Unreliable Sequenced, bit 4: has_split_packet=1=true
        0x00, 0x10, // Data bit length: 0x0010=16 bits=2 bytes
        0x56, 0x34, 0x12, // Sequencing index: 0x123456
        0x33, 0x22, 0x11, // Ordering index: 0x112233
        0x05, // Ordering channel: 5
        0x11, 0x22, 0x33, 0x44, // Split packet count: 0x11223344
        0x13, 0x57, // Split packet ID: 0x1357
        0x01, 0x23, 0x45, 0x67, // Split packet index: 0x01234567 
        0x12, 0x34, // Data [0x12, 0x34]
    ]);
}    

#[test]
fn write_reliable_packet() {
    let packet = InternalPacket::new(
        0,
        InternalReliability::Reliable(Some(MessageNumber::from_masked_u32(0x123456))),
        InternalOrdering::Unordered,
        None,
        None,
        vec![0x12, 0x34]);
    let mut buf = Vec::new();

    packet.write(&mut buf).expect("Could not write packet");

    assert_eq!(buf, vec![
        0b010_0_0000, // Bitflags: bit 7-5: reliability=2=Reliable, bit 4: has_split_packet=0=false
        0x00, 0x10, // Data bit length: 0x0010=16 bits=2 bytes
        0x56, 0x34, 0x12, // Reliable message number: 0x123456
        0x12, 0x34, // Data [0x12, 0x34]
    ]);
}

#[test]
fn write_reliable_split_packet() {
    let packet = InternalPacket::new(
        0,
        InternalReliability::Reliable(Some(MessageNumber::from_masked_u32(0x123456))),
        InternalOrdering::Unordered,
        Some(SplitPacketHeader::new(0x11223344, 0x1357, 0x01234567)),
        None,
        vec![0x12, 0x34]);
    let mut buf = Vec::new();

    packet.write(&mut buf).expect("Could not write packet");

    assert_eq!(buf, vec![
        0b010_1_0000, // Bitflags: bit 7-5: reliability=2=Reliable, bit 4: has_split_packet=1=true
        0x00, 0x10, // Data bit length: 0x0010=16 bits=2 bytes
        0x56, 0x34, 0x12, // Reliable message number: 0x123456
        0x11, 0x22, 0x33, 0x44, // Split packet count: 0x11223344
        0x13, 0x57, // Split packet ID: 0x1357
        0x01, 0x23, 0x45, 0x67, // Split packet index: 0x01234567 
        0x12, 0x34, // Data [0x12, 0x34]
    ]);
}

#[test]
fn write_reliable_ordered_packet() {
    let packet = InternalPacket::new(
        0,
        InternalReliability::Reliable(Some(MessageNumber::from_masked_u32(0x123456))),
        InternalOrdering::Ordered {
            ordering_index: OrderingIndex::from_masked_u32(0x112233),
            ordering_channel_index: 0x05
        },
        None,
        None,
        vec![0x12, 0x34]);
    let mut buf = Vec::new();

    packet.write(&mut buf).expect("Could not write packet");

    assert_eq!(buf, vec![
        0b011_0_0000, // Bitflags: bit 7-5: reliability=3=Reliable Ordered, bit 4: has_split_packet=0=false
        0x00, 0x10, // Data bit length: 0x0010=16 bits=2 bytes
        0x56, 0x34, 0x12, // Reliable message number: 0x123456
        0x33, 0x22, 0x11, // Ordering index: 0x112233
        0x05, // Ordering channel: 5
        0x12, 0x34, // Data [0x12, 0x34]
    ]);
   }    

#[test]
fn write_reliable_ordered_split_packet() {
    let packet = InternalPacket::new(
        0,
        InternalReliability::Reliable(Some(MessageNumber::from_masked_u32(0x123456))),
        InternalOrdering::Ordered {
            ordering_index: OrderingIndex::from_masked_u32(0x112233),
            ordering_channel_index: 0x05
        },
        Some(SplitPacketHeader::new(0x11223344, 0x1357, 0x01234567)),
        None,
        vec![0x12, 0x34]);
    let mut buf = Vec::new();

    packet.write(&mut buf).expect("Could not write packet");

    assert_eq!(buf, vec![
        0b011_1_0000, // Bitflags: bit 7-5: reliability=3=Reliable Ordered, bit 4: has_split_packet=1=true
        0x00, 0x10, // Data bit length: 0x0010=16 bits=2 bytes
        0x56, 0x34, 0x12, // Reliable message number: 0x123456
        0x33, 0x22, 0x11, // Ordering index: 0x112233
        0x05, // Ordering channel: 5
        0x11, 0x22, 0x33, 0x44, // Split packet count: 0x11223344
        0x13, 0x57, // Split packet ID: 0x1357
        0x01, 0x23, 0x45, 0x67, // Split packet index: 0x01234567 
        0x12, 0x34, // Data [0x12, 0x34]
    ]);
}

#[test]
fn write_reliable_sequenced_packet() {
    let packet = InternalPacket::new(
        0,
        InternalReliability::Reliable(Some(MessageNumber::from_masked_u32(0x123456))),
        InternalOrdering::Sequenced {
            sequencing_index: SequencingIndex::from_masked_u32(0x102030),
            ordering_index: OrderingIndex::from_masked_u32(0x112233),
            ordering_channel_index: 0x05
        },
        None,
        None,
        vec![0x12, 0x34]);
    let mut buf = Vec::new();

    packet.write(&mut buf).expect("Could not write packet");

    assert_eq!(buf, vec! [
        0b100_0_0000, // Bitflags: bit 7-5: reliability=4=Reliable Sequenced, bit 4: has_split_packet=0=false
        0x00, 0x10, // Data bit length: 0x0010=16 bits=2 bytes
        0x56, 0x34, 0x12, // Reliable message number: 0x123456
        0x30, 0x20, 0x10, // Sequencing index: 0x102030
        0x33, 0x22, 0x11, // Ordering index: 0x112233
        0x05, // Ordering channel: 5
        0x12, 0x34, // Data [0x12, 0x34]
    ]);
}

#[test]
fn write_reliable_sequenced_split_packet() {
    let packet = InternalPacket::new(
        0,
        InternalReliability::Reliable(Some(MessageNumber::from_masked_u32(0x123456))),
        InternalOrdering::Sequenced {
            sequencing_index: SequencingIndex::from_masked_u32(0x102030),
            ordering_index: OrderingIndex::from_masked_u32(0x112233),
            ordering_channel_index: 0x05
        },
        Some(SplitPacketHeader::new(0x11223344, 0x1357, 0x01234567)),
        None,
        vec![0x12, 0x34]);
    let mut buf = Vec::new();

    packet.write(&mut buf).expect("Could not write packet");

    assert_eq!(buf, vec! [
        0b100_1_0000, // Bitflags: bit 7-5: reliability=4=Reliable Sequenced, bit 4: has_split_packet=1=true
        0x00, 0x10, // Data bit length: 0x0010=16 bits=2 bytes
        0x56, 0x34, 0x12, // Reliable message number: 0x123456
        0x30, 0x20, 0x10, // Sequencing index: 0x102030
        0x33, 0x22, 0x11, // Ordering index: 0x112233
        0x05, // Ordering channel: 5
        0x11, 0x22, 0x33, 0x44, // Split packet count: 0x11223344
        0x13, 0x57, // Split packet ID: 0x1357
        0x01, 0x23, 0x45, 0x67, // Split packet index: 0x01234567 
        0x12, 0x34, // Data [0x12, 0x34]
    ]);
}

#[test]
fn write_then_read_gives_the_packet_back() {
    let packet = InternalPacket::new(
        0,
        InternalReliability::Reliable(Some(MessageNumber::from_masked_u32(7))),
        InternalOrdering::Sequenced {
            sequencing_index: SequencingIndex::from_masked_u32(3),
            ordering_index: OrderingIndex::from_masked_u32(4),
            ordering_channel_index: 2,
        },
        Some(SplitPacketHeader::new(3, 9, 1)),
        None,
        vec![5, 6, 7]);
    let mut buf = Vec::new();
    packet.write(&mut buf).expect("Could not write packet");
    assert_eq!(buf.len(), packet.get_size_in_bytes() as usize);
    let mut reader = DataReader::new(&buf);
    let read = InternalPacket::read(0, &mut reader).expect("Failed to read packet");
    assert_eq!(read.reliability(), packet.reliability());
    assert_eq!(read.ordering(), packet.ordering());
    assert_eq!(read.split_packet_header(), packet.split_packet_header());
    assert_eq!(read.payload(), packet.payload());
    assert!(!reader.has_more());
}

#[test]
fn write_reliable_packet_without_message_number_fails() {
    let packet = InternalPacket::new(0, InternalReliability::Reliable(None), InternalOrdering::Unordered, None, None, vec![1]);
    let mut buf = Vec::new();
    assert_eq!(packet.write(&mut buf), Err(raknet::error::Error::WriteError(raknet::error::WriteError::InvalidHeader)));
    assert_eq!(buf, vec![0b010_0_0000, 0x00, 0x08]);
}

#[test]
fn write_unreliable_ordered_packet_fails() {
    let packet = InternalPacket::new(
        0,
        InternalReliability::Unreliable,
        InternalOrdering::Ordered { ordering_index: OrderingIndex::zero(), ordering_channel_index: 0 },
        None,
        None,
        vec![1]);
    let mut buf = Vec::new();
    assert_eq!(packet.write(&mut buf), Err(raknet::error::Error::WriteError(raknet::error::WriteError::InvalidHeader)));
    assert!(buf.is_empty());
}

#[test]
fn write_too_large_payload_fails() {
    let packet = InternalPacket::new(0, InternalReliability::Unreliable, InternalOrdering::Unordered, None, None, vec![0; 8192]);
    let mut buf = Vec::new();
    assert_eq!(packet.write(&mut buf), Err(raknet::error::Error::WriteError(raknet::error::WriteError::PayloadTooLarge)));
}

#[test]
fn read_empty_buffer_fails() {
    let buf: [u8; 0] = [];
    let mut reader = DataReader::new(&buf);
    assert!(InternalPacket::read(0, &mut reader).is_err());
}

#[test]
fn size_in_bytes_counts_header_and_payload() {
    let packet = InternalPacket::new(
        0,
        InternalReliability::Reliable(Some(MessageNumber::zero())),
        InternalOrdering::Ordered { ordering_index: OrderingIndex::zero(), ordering_channel_index: 0 },
        None,
        None,
        vec![1, 2, 3, 4]);
    assert_eq!(packet.get_size_in_bytes(), 3 + 3 + 4 + 4);
}

#[test]
fn read_packet_with_largest_bit_lengths_announces_no_bytes() {
    let mut data = vec![0x00u8, 0xFF, 0xFF];
    data.extend(std::iter::repeat(0x11u8).take(9000));
    let mut reader = DataReader::new(&data);
    assert!(matches!(
        InternalPacket::read(0, &mut reader),
        Err(raknet::error::Error::ReadError(raknet::error::ReadError::InvalidHeader))
    ));
    let data = [0x00u8, 0xFF, 0xF8, 0x11];
    let mut reader = DataReader::new(&data);
    assert!(InternalPacket::read(0, &mut reader).is_err());
}
