use raknet::internal_packet::{InternalOrdering, InternalPacket, InternalReliability};
use raknet::outgoing_packet_heap::OutgoingPacketHeap;
use raknet::packet::Priority;

fn packet(byte: u8) -> InternalPacket {
    InternalPacket::new(0, InternalReliability::Unreliable, InternalOrdering::Unordered, None, None, vec![byte])
}

#[test]
fn push_low_then_medium_priority_packets() {
    let mut heap = OutgoingPacketHeap::new();
    let packet1 = packet(1);
    let packet2 = packet(2);

    heap.push(Priority::Low, packet1);
    heap.push(Priority::Medium, packet2);

    assert!(matches!(heap.pop(), Some(packet) if packet.payload() == &[2]));
    assert!(matches!(heap.pop(), Some(packet) if packet.payload() == &[1]));
    assert!(matches!(heap.pop(), None));
}

#[test]
fn push_medium_then_low_priority_packets() {
    let mut heap = OutgoingPacketHeap::new();
    let packet1 = packet(1);
    let packet2 = packet(2);

    heap.push(Priority::Medium, packet1);
    heap.push(Priority::Low, packet2);

    assert!(matches!(heap.pop(), Some(packet) if packet.payload() == &[1]));
    assert!(matches!(heap.pop(), Some(packet) if packet.payload() == &[2]));
    assert!(matches!(heap.pop(), None));
}

#[test]
fn push_low_then_highest_priority_packets() {
    let mut heap = OutgoingPacketHeap::new();
    let packet1 = packet(1);
    let packet2 = packet(2);

    heap.push(Priority::Low, packet1);
    heap.push(Priority::Highest, packet2);

    assert!(matches!(heap.pop(), Some(packet) if packet.payload() == &[2]));
    assert!(matches!(heap.pop(), Some(packet) if packet.payload() == &[1]));
    assert!(matches!(heap.pop(), None));
}

#[test]
fn push_high_then_highest_priority_packets() {
    let mut heap = OutgoingPacketHeap::new();
    let packet1 = packet(1);
    let packet2 = packet(2);

    heap.push(Priority::High, packet1);
    heap.push(Priority::Highest, packet2);

    assert!(matches!(heap.pop(), Some(packet) if packet.payload() == &[2]));
    assert!(matches!(heap.pop(), Some(packet) if packet.payload() == &[1]));
    assert!(matches!(heap.pop(), None));
}

#[test]
fn push_highest_then_high_priority_packets() {
    let mut heap = OutgoingPacketHeap::new();
    let packet1 = packet(1);
    let packet2 = packet(2);

    heap.push(Priority::Highest, packet1);
    heap.push(Priority::High, packet2);

    assert!(matches!(heap.pop(), Some(packet) if packet.payload() == &[1]));
    assert!(matches!(heap.pop(), Some(packet) if packet.payload() == &[2]));
    assert!(matches!(heap.pop(), None));
}

#[test]
fn same_priority_packets_leave_in_push_order() {
    let mut heap = OutgoingPacketHeap::new();
    for b in 1..=5u8 {
        heap.push(Priority::Medium, packet(b));
    }
    for b in 1..=5u8 {
        let p = heap.pop().expect("packet");
        assert_eq!(p.payload(), &[b]);
    }
    assert!(heap.peek().is_none());
}

#[test]
fn highest_packets_are_interleaved_after_queued_high_packets() {
    // High packets get weights 9 and 17; the Highest packets pushed after
    // them get weights 4, 8, 12 and 16.
    let mut heap = OutgoingPacketHeap::new();
    heap.push(Priority::High, packet(10));
    heap.push(Priority::High, packet(11));
    for b in 1..=4u8 {
        heap.push(Priority::Highest, packet(b));
    }
    let order: Vec<u8> = (0..6).map(|_| heap.pop().expect("packet").payload()[0]).collect();
    assert_eq!(order, vec![1, 2, 10, 3, 4, 11]);
}

#[test]
fn two_highest_packets_leave_for_every_high_packet() {
    let mut heap = OutgoingPacketHeap::new();
    for b in 1..=4u8 {
        heap.push(Priority::Highest, packet(b));
    }
    heap.push(Priority::High, packet(11));
    heap.push(Priority::High, packet(12));
    let order: Vec<u8> = (0..6).map(|_| heap.pop().expect("packet").payload()[0]).collect();
    assert_eq!(order, vec![1, 2, 11, 3, 4, 12]);
    assert!(heap.pop().is_none());
}

#[test]
fn each_level_gets_half_the_turns_of_the_level_above() {
    let mut heap = OutgoingPacketHeap::new();
    for b in 0..4u8 {
        heap.push(Priority::Low, packet(40 + b));
        heap.push(Priority::Medium, packet(30 + b));
        heap.push(Priority::High, packet(20 + b));
        heap.push(Priority::Highest, packet(10 + b));
    }
    let order: Vec<u8> = (0..16).map(|_| heap.pop().expect("packet").payload()[0]).collect();
    assert_eq!(order, vec![10, 11, 20, 12, 13, 21, 30, 22, 23, 31, 40, 32, 33, 41, 42, 43]);
}
