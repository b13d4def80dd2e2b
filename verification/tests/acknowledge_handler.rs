use raknet::acknowledge_handler::AcknowledgeHandler;
use raknet::address::SocketAddress;
use raknet::datagram_range::DatagramRange;
use raknet::datagram_range_list::DatagramRangeList;
use raknet::internal_packet::{InternalOrdering, InternalPacket, InternalReliability};
use raknet::number::{DatagramSequenceNumber, MessageNumber};
use raknet::packet_datagram::PacketDatagram;

const MS: u64 = 1_000_000;
const TIME: u64 = 5_000 * MS;

fn test_setup() -> (AcknowledgeHandler, SocketAddress) {
    let remote_addr = SocketAddress::v4([127, 0, 0, 1], 19132);
    let remote_guid = 0x112233;
    (AcknowledgeHandler::new(remote_addr, remote_guid), remote_addr)
}

fn unreliable(time: u64, byte: u8) -> InternalPacket {
    InternalPacket::new(time, InternalReliability::Unreliable, InternalOrdering::Unordered, None, None, vec![byte])
}

fn reliable(number: u32, byte: u8, receipt: Option<u32>) -> InternalPacket {
    InternalPacket::new(
        TIME,
        InternalReliability::Reliable(Some(MessageNumber::from_masked_u32(number))),
        InternalOrdering::Unordered,
        None,
        receipt,
        vec![byte])
}

#[test]
fn get_packets_to_resend_no_packets() {
    let (mut handler, _remote_addr) = test_setup();

    let (packets, _lost) = handler.get_packets_to_resend(TIME);

    assert_eq!(packets, vec![]);
}

#[test]
fn get_packets_to_resend_no_timeout() {
    let (mut handler, _remote_addr) = test_setup();
    let time = TIME;
    let mut buf = Vec::new();
    let mut datagram1 = PacketDatagram::new(DatagramSequenceNumber::zero());
    datagram1.push(InternalPacket::new(time, InternalReliability::Unreliable, InternalOrdering::Unordered, None, None, vec![1, 2, 3]));
    datagram1.push(InternalPacket::new(time + 10 * MS, InternalReliability::Unreliable, InternalOrdering::Unordered, None, None, vec![1, 2, 3]));
    handler.process_outgoing_datagram(datagram1, time, &mut buf).expect("Could not process datagram");
    let mut datagram2 = PacketDatagram::new(DatagramSequenceNumber::zero());
    datagram2.push(InternalPacket::new(time + 20 * MS, InternalReliability::Unreliable, InternalOrdering::Unordered, None, None, vec![1, 2, 3]));
    datagram2.push(InternalPacket::new(time + 30 * MS, InternalReliability::Unreliable, InternalOrdering::Unordered, None, None, vec![1, 2, 3]));
    handler.process_outgoing_datagram(datagram2, time, &mut buf).expect("Could not process datagram");

    let (packets, _lost) = handler.get_packets_to_resend(time + 40 * MS);

    assert_eq!(packets, vec![]);
}

#[test]
fn get_packets_to_resend_timeout_unreliable() {
    let (mut handler, _remote_addr) = test_setup();
    let time = TIME;
    let mut buf = Vec::new();
    let packet1 = unreliable(time, 1);
    let packet2 = unreliable(time, 2);
    let packet3 = unreliable(time, 3);
    let packet4 = unreliable(time, 4);
    let mut datagram1 = PacketDatagram::new(DatagramSequenceNumber::zero());
    let mut datagram2 = PacketDatagram::new(DatagramSequenceNumber::one());
    let mut datagram3 = PacketDatagram::new(DatagramSequenceNumber::from_masked_u32(2));
    datagram1.push(packet1.clone());
    datagram1.push(packet2.clone());
    datagram2.push(packet3.clone());
    datagram3.push(packet4.clone());
    handler.process_outgoing_datagram(datagram1, time, &mut buf).expect("Could not process datagram");
    handler.process_outgoing_datagram(datagram2, time + 10 * MS, &mut buf).expect("Could not process datagram");
    handler.process_outgoing_datagram(datagram3, time + 30 * MS, &mut buf).expect("Could not process datagram");

    let (packets, _lost) = handler.get_packets_to_resend(time + 1025 * MS);

    assert_eq!(packets, vec![]);
}

#[test]
fn get_packets_to_resend_timeout_reliable() {
    let (mut handler, _remote_addr) = test_setup();
    let time = TIME;
    let mut buf = Vec::new();
    let packet1 = reliable(1, 1, None);
    let packet2 = reliable(2, 2, None);
    let packet3 = reliable(3, 3, None);
    let packet4 = reliable(4, 4, None);
    let mut datagram1 = PacketDatagram::new(DatagramSequenceNumber::zero());
    let mut datagram2 = PacketDatagram::new(DatagramSequenceNumber::one());
    let mut datagram3 = PacketDatagram::new(DatagramSequenceNumber::from_masked_u32(2));
    datagram1.push(packet1.clone());
    datagram1.push(packet2.clone());
    datagram2.push(packet3.clone());
    datagram3.push(packet4.clone());
    handler.process_outgoing_datagram(datagram1, time, &mut buf).expect("Could not process datagram");
    handler.process_outgoing_datagram(datagram2, time + 10 * MS, &mut buf).expect("Could not process datagram");
    handler.process_outgoing_datagram(datagram3, time + 30 * MS, &mut buf).expect("Could not process datagram");

    let (packets, _lost) = handler.get_packets_to_resend(time + 1025 * MS);

    assert_eq!(packets, vec![packet1, packet2, packet3]);
}

#[test]
fn process_outgoing_datagram_writes_header_and_packets_and_advances_number() {
    let (mut handler, _) = test_setup();
    let mut datagram = PacketDatagram::new(DatagramSequenceNumber::zero());
    datagram.push(unreliable(TIME, 0xAB));
    let mut buf = vec![0xFF];
    handler.process_outgoing_datagram(datagram, TIME, &mut buf).expect("Could not process datagram");
    assert_eq!(buf, vec![0x80, 0x00, 0x00, 0x00, 0x00, 0x00, 0x08, 0xAB]);
    assert_eq!(handler.get_next_datagram_number(), DatagramSequenceNumber::one());
    assert_eq!(handler.datagrams_in_flight(), 1);
    assert!(handler.has_room_for_datagram());
}

#[test]
fn process_outgoing_datagram_with_unwritable_packet_fails() {
    let (mut handler, _) = test_setup();
    let mut datagram = PacketDatagram::new(DatagramSequenceNumber::zero());
    datagram.push(InternalPacket::new(TIME, InternalReliability::Reliable(None), InternalOrdering::Unordered, None, None, vec![1]));
    let mut buf = Vec::new();
    assert!(handler.process_outgoing_datagram(datagram, TIME, &mut buf).is_err());
    assert_eq!(handler.datagrams_in_flight(), 0);
    assert_eq!(handler.get_next_datagram_number(), DatagramSequenceNumber::zero());
}

#[test]
fn process_incoming_ack_returns_receipts_and_removes_datagrams() {
    let (mut handler, remote_addr) = test_setup();
    let mut buf = Vec::new();
    let mut datagram1 = PacketDatagram::new(DatagramSequenceNumber::zero());
    datagram1.push(reliable(1, 1, Some(77)));
    datagram1.push(reliable(2, 2, None));
    handler.process_outgoing_datagram(datagram1, TIME, &mut buf).expect("Could not process datagram");
    let mut datagram2 = PacketDatagram::new(DatagramSequenceNumber::one());
    datagram2.push(reliable(3, 3, Some(88)));
    handler.process_outgoing_datagram(datagram2, TIME, &mut buf).expect("Could not process datagram");

    let mut list = DatagramRangeList::new();
    list.push(DatagramRange::new(0u8.into(), 0u8.into()));
    let receipts = handler.process_incoming_ack(list);

    assert_eq!(receipts.len(), 1);
    assert_eq!(receipts[0].receipt(), 77);
    assert_eq!(receipts[0].addr(), remote_addr);
    assert_eq!(receipts[0].guid(), 0x112233);
    assert_eq!(handler.datagrams_in_flight(), 1);
}

#[test]
fn process_incoming_nack_makes_datagram_resend_now() {
    let (mut handler, _) = test_setup();
    let mut buf = Vec::new();
    let packet = reliable(1, 1, None);
    let mut datagram = PacketDatagram::new(DatagramSequenceNumber::zero());
    datagram.push(packet.clone());
    handler.process_outgoing_datagram(datagram, TIME, &mut buf).expect("Could not process datagram");

    let mut list = DatagramRangeList::new();
    list.push(DatagramRange::new(0u8.into(), 0u8.into()));
    handler.process_incoming_nack(TIME + 5 * MS, list);

    let (packets, _lost) = handler.get_packets_to_resend(TIME + 5 * MS);
    assert_eq!(packets, vec![packet]);
    assert_eq!(handler.datagrams_in_flight(), 0);
}

#[test]
fn timed_out_unreliable_packets_report_lost_receipts() {
    let (mut handler, _) = test_setup();
    let mut buf = Vec::new();
    let mut datagram = PacketDatagram::new(DatagramSequenceNumber::zero());
    datagram.push(InternalPacket::new(TIME, InternalReliability::Unreliable, InternalOrdering::Unordered, None, Some(5), vec![1]));
    handler.process_outgoing_datagram(datagram, TIME, &mut buf).expect("Could not process datagram");
    let (packets, lost) = handler.get_packets_to_resend(TIME + AcknowledgeHandler::get_retransmission_timeout());
    assert!(packets.is_empty());
    assert_eq!(lost.len(), 1);
    assert_eq!(lost[0].receipt(), 5);
}
