use raknet::address::SocketAddress;
use raknet::config::Config;
use raknet::datagram_header::DatagramHeader;
use raknet::internal_packet::{InternalOrdering, InternalPacket, InternalReliability};
use raknet::number::{DatagramSequenceNumber, MessageNumber, OrderingIndex};
use raknet::packet::{PacketOrdering, Priority, Reliability};
use raknet::packet_datagram::PacketDatagram;
use raknet::reader::DataReader;
use raknet::reliability_layer::ReliabilityLayer;

const MS: u64 = 1_000_000;
const NOW: u64 = 20_000 * MS;

fn layer() -> ReliabilityLayer {
    ReliabilityLayer::new(SocketAddress::v4([10, 0, 0, 1], 1000), 42, 1400, NOW)
}

fn config() -> Config {
    let mut c = Config::default();
    c.guid = 1;
    c
}

fn read_packets(datagram: &[u8]) -> (DatagramHeader, Vec<InternalPacket>) {
    let mut reader = DataReader::new(datagram);
    let header = DatagramHeader::read(&mut reader).expect("header");
    let mut packets = Vec::new();
    while reader.has_more() {
        packets.push(InternalPacket::read(0, &mut reader).expect("packet"));
    }
    (header, packets)
}

fn incoming(number: u32, packet: InternalPacket) -> Vec<u8> {
    let mut d = PacketDatagram::new(DatagramSequenceNumber::from_masked_u32(number));
    d.push(packet);
    let mut buf = Vec::new();
    d.write(&mut buf).expect("datagram");
    buf
}

#[test]
fn queued_packets_are_sent_in_one_datagram_with_a_message_number() {
    let mut l = layer();
    l.send_packet(NOW, Priority::High, Reliability::Reliable, PacketOrdering::Ordered(3), None, vec![1, 2]);
    l.send_packet(NOW, Priority::High, Reliability::Unreliable, PacketOrdering::Unordered, None, vec![3]);
    l.send_packet(NOW, Priority::High, Reliability::Reliable, PacketOrdering::Ordered(3), None, vec![4]);
    let out = l.update(NOW, &config());
    assert_eq!(out.len(), 1);
    let (header, packets) = read_packets(&out[0]);
    assert!(matches!(header, DatagramHeader::Packet { datagram_number, .. } if datagram_number == DatagramSequenceNumber::zero()));
    assert_eq!(packets.len(), 3);
    assert_eq!(packets[0].reliability(), InternalReliability::Reliable(Some(MessageNumber::zero())));
    assert_eq!(packets[0].ordering(), InternalOrdering::Ordered { ordering_index: OrderingIndex::zero(), ordering_channel_index: 3 });
    assert_eq!(packets[1].reliability(), InternalReliability::Unreliable);
    assert_eq!(packets[2].reliability(), InternalReliability::Reliable(Some(MessageNumber::zero())));
    assert_eq!(packets[2].ordering(), InternalOrdering::Ordered { ordering_index: OrderingIndex::one(), ordering_channel_index: 3 });
    assert!(l.update(NOW, &config()).is_empty());
}

#[test]
fn ordering_channel_beyond_range_uses_channel_zero() {
    let mut l = layer();
    l.send_packet(NOW, Priority::High, Reliability::Reliable, PacketOrdering::Ordered(200), None, vec![1]);
    let out = l.update(NOW, &config());
    let (_, packets) = read_packets(&out[0]);
    assert_eq!(packets[0].ordering(), InternalOrdering::Ordered { ordering_index: OrderingIndex::zero(), ordering_channel_index: 0 });
}

#[test]
fn too_large_payload_is_not_sent() {
    let mut l = layer();
    l.send_packet(NOW, Priority::High, Reliability::Reliable, PacketOrdering::Unordered, None, vec![0; 1400]);
    assert!(l.update(NOW, &config()).is_empty());
}

#[test]
fn many_packets_fill_several_datagrams() {
    let mut l = ReliabilityLayer::new(SocketAddress::v4([10, 0, 0, 1], 1000), 42, 100, NOW);
    for i in 0..10u8 {
        l.send_packet(NOW, Priority::Medium, Reliability::Unreliable, PacketOrdering::Unordered, None, vec![i; 30]);
    }
    let out = l.update(NOW, &config());
    assert!(out.len() > 1);
    let mut all = Vec::new();
    for d in &out {
        assert!(d.len() <= 100 - 28);
        let (_, packets) = read_packets(d);
        all.extend(packets.into_iter().map(|p| p.payload()[0]));
    }
    assert_eq!(all, (0..10u8).collect::<Vec<u8>>());
}

#[test]
fn received_datagram_is_acknowledged_after_delay() {
    let mut l = layer();
    let packet = InternalPacket::new(0, InternalReliability::Unreliable, InternalOrdering::Unordered, None, None, vec![0x86]);
    let delivered = l.process_incoming_datagram(&incoming(0, packet), NOW).expect("packets");
    assert_eq!(delivered.len(), 1);
    assert_eq!(delivered[0].payload(), &[0x86]);
    assert!(l.update(NOW + 10 * MS, &config()).is_empty());
    let out = l.update(NOW + 10 * MS + 1, &config());
    assert_eq!(out, vec![vec![0xC0, 0x00, 0x01, 0x01, 0x00, 0x00, 0x00]]);
}

#[test]
fn missing_datagrams_are_reported_at_once() {
    let mut l = layer();
    let packet = InternalPacket::new(0, InternalReliability::Unreliable, InternalOrdering::Unordered, None, None, vec![0x86]);
    let _ = l.process_incoming_datagram(&incoming(3, packet), NOW);
    let out = l.update(NOW, &config());
    assert_eq!(out, vec![vec![0xA0, 0x00, 0x01, 0x00, 0x00, 0x00, 0x00, 0x02, 0x00, 0x00]]);
}

#[test]
fn datagram_with_unreadable_header_gives_nothing() {
    let mut l = layer();
    assert!(l.process_incoming_datagram(&[0x00, 0x01], NOW).is_none());
    assert!(l.process_incoming_datagram(&[], NOW).is_none());
}

#[test]
fn dead_connection_sends_nothing() {
    let mut l = layer();
    l.send_packet(NOW, Priority::High, Reliability::Reliable, PacketOrdering::Unordered, None, vec![1]);
    assert_eq!(l.update(NOW, &config()).len(), 1);
    assert!(!l.is_ack_timeout(NOW + 10_000 * MS, &config()));
    assert!(l.is_ack_timeout(NOW + 10_001 * MS, &config()));
    l.send_packet(NOW, Priority::High, Reliability::Reliable, PacketOrdering::Unordered, None, vec![2]);
    assert!(l.update(NOW + 10_001 * MS, &config()).is_empty());
}

#[test]
fn ordered_packets_are_delivered_in_order() {
    let mut l = layer();
    let p = |n: u32, idx: u32, b: u8| InternalPacket::new(
        0,
        InternalReliability::Reliable(Some(MessageNumber::from_masked_u32(n))),
        InternalOrdering::Ordered { ordering_index: OrderingIndex::from_masked_u32(idx), ordering_channel_index: 1 },
        None,
        None,
        vec![b],
    );
    let first = l.process_incoming_datagram(&incoming(0, p(0, 1, 0xB)), NOW).expect("packets");
    assert!(first.is_empty());
    let second = l.process_incoming_datagram(&incoming(1, p(1, 0, 0xA)), NOW).expect("packets");
    let payloads: Vec<u8> = second.iter().map(|p| p.payload()[0]).collect();
    assert_eq!(payloads, vec![0xA, 0xB]);
}

#[test]
fn written_datagram_is_read_back_by_the_receiver() {
    let mut d = PacketDatagram::new(DatagramSequenceNumber::from_masked_u32(0));
    d.push(InternalPacket::new(NOW, InternalReliability::Unreliable, InternalOrdering::Unordered, None, None, vec![0x86, 1, 2]));
    d.push(InternalPacket::new(NOW, InternalReliability::Reliable(Some(MessageNumber::zero())), InternalOrdering::Unordered, None, None, vec![0x86, 3]));
    let mut buf = Vec::new();
    d.write(&mut buf).expect("datagram");

    let (header, packets) = read_packets(&buf);
    assert!(matches!(header, DatagramHeader::Packet { .. }));
    assert_eq!(packets.len(), 2);
    assert_eq!(packets[0].payload(), &[0x86, 1, 2]);
    assert_eq!(packets[1].reliability(), InternalReliability::Reliable(Some(MessageNumber::zero())));

    let mut receiver = layer();
    let delivered = receiver.process_incoming_datagram(&buf, NOW).expect("packets");
    assert_eq!(delivered.len(), 2);
    assert_eq!(delivered[0].payload(), &[0x86, 1, 2]);
    assert_eq!(delivered[1].payload(), &[0x86, 3]);
    assert_eq!(delivered[1].guid(), 42);
}

#[test]
fn acks_cover_exactly_the_received_datagrams() {
    let mut l = layer();
    for number in [0u32, 1, 2, 5] {
        let packet = InternalPacket::new(0, InternalReliability::Unreliable, InternalOrdering::Unordered, None, None, vec![0x86]);
        let _ = l.process_incoming_datagram(&incoming(number, packet), NOW);
    }
    let out = l.update(NOW + 11 * MS, &config());
    assert_eq!(
        out,
        vec![
            vec![0xC0, 0x00, 0x02, 0x00, 0x00, 0x00, 0x00, 0x02, 0x00, 0x00, 0x01, 0x05, 0x00, 0x00],
            vec![0xA0, 0x00, 0x01, 0x00, 0x03, 0x00, 0x00, 0x04, 0x00, 0x00],
        ]
    );
    assert!(l.update(NOW + 100 * MS, &config()).is_empty());
}
