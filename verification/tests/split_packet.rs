use raknet::internal_packet::{InternalOrdering, InternalPacket, InternalReliability, SplitPacketHeader};
use raknet::split_packet_handler::{SplitPacketChannel, SplitPacketHandler};

fn part(count: u32, id: u16, index: u32, payload: Vec<u8>) -> InternalPacket {
    InternalPacket::new(
        5,
        InternalReliability::Unreliable,
        InternalOrdering::Unordered,
        Some(SplitPacketHeader::new(count, id, index)),
        None,
        payload,
    )
}

#[test]
fn split_packet_reassembled_out_of_order() {
    let mut handler = SplitPacketHandler::new();
    assert!(handler.handle_split_packet(10, part(3, 7, 2, vec![5, 6])).is_none());
    assert!(handler.handle_split_packet(11, part(3, 7, 0, vec![1, 2])).is_none());
    let packet = handler.handle_split_packet(12, part(3, 7, 1, vec![3, 4])).expect("reassembled");
    assert_eq!(packet.payload(), &[1, 2, 3, 4, 5, 6]);
    assert_eq!(packet.creation_time(), 12);
    assert!(packet.split_packet_header().is_none());
    assert_eq!(packet.reliability(), InternalReliability::Unreliable);
}

#[test]
fn split_packet_duplicate_part_is_ignored() {
    let mut handler = SplitPacketHandler::new();
    assert!(handler.handle_split_packet(10, part(2, 1, 0, vec![1])).is_none());
    assert!(handler.handle_split_packet(11, part(2, 1, 0, vec![9])).is_none());
    assert!(handler.handle_split_packet(12, part(2, 1, 5, vec![9])).is_none());
    let packet = handler.handle_split_packet(13, part(2, 1, 1, vec![2])).expect("reassembled");
    assert_eq!(packet.payload(), &[1, 2]);
}

#[test]
fn split_channel_reassembles_only_when_complete() {
    let mut channel = SplitPacketChannel::new(InternalReliability::Unreliable, InternalOrdering::Unordered, 3);
    assert!(channel.insert(1, vec![2]).is_ok());
    assert!(channel.get_reassembled_packet(0).is_none());
    assert!(channel.insert(2, vec![3, 3]).is_ok());
    assert!(channel.get_reassembled_packet(0).is_none());
    assert!(channel.insert(0, vec![1]).is_ok());
    let packet = channel.get_reassembled_packet(9).expect("complete");
    assert_eq!(packet.payload(), &[1, 2, 3, 3]);
    assert_eq!(packet.creation_time(), 9);
}
