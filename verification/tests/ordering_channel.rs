use raknet::number::{OrderingIndex, SequencingIndex};
use raknet::ordering_channel::OrderingChannel;

#[test]
fn initial_state() {
    let mut channel = OrderingChannel::new();

    let packets: Vec<Vec<u8>> = channel.iter_mut();
    assert!(packets.is_empty());
}

#[test]
fn process_incoming_sequenced_packet_expected_ordering_index() {
    let mut channel = OrderingChannel::new();

    let packet = channel.process_incoming(Some(SequencingIndex::one()), OrderingIndex::zero(), vec![1, 2, 3]);

    assert_eq!(packet, Some(vec![1, 2, 3]));
    let packets: Vec<Vec<u8>> = channel.iter_mut();
    assert!(packets.is_empty());
}

#[test]
fn process_incoming_sequenced_packet_old_ordering_index() {
    let mut channel = OrderingChannel::new();

    let packet1 = channel.process_incoming(None, OrderingIndex::zero(), vec![9, 9, 9]);
    let packet2 = channel.process_incoming(Some(SequencingIndex::one()), OrderingIndex::zero(), vec![1, 2, 3]);

    assert_eq!(packet1, Some(vec![9, 9, 9]));
    assert_eq!(packet2, None);
    let packets: Vec<Vec<u8>> = channel.iter_mut();
    assert!(packets.is_empty());
}

#[test]
fn process_incoming_sequenced_packet_old_sequencing_index() {
    let mut channel = OrderingChannel::new();

    let packet1 = channel.process_incoming(Some(SequencingIndex::one()), OrderingIndex::zero(), vec![1, 2, 3]);
    let packet2 = channel.process_incoming(Some(SequencingIndex::zero()), OrderingIndex::zero(), vec![3, 4, 5]);

    assert_eq!(packet1, Some(vec![1, 2, 3]));
    assert_eq!(packet2, None);
    let packets: Vec<Vec<u8>> = channel.iter_mut();
    assert!(packets.is_empty());
}

#[test]
fn process_incoming_sequenced_packet_higher_ordering_index_than_expected() {
    let mut channel = OrderingChannel::new();

    let packet1 = channel.process_incoming(Some(SequencingIndex::one()), OrderingIndex::one(), vec![1, 2, 3]);
    let packets1: Vec<Vec<u8>> = channel.iter_mut();
    let packet2 = channel.process_incoming(None, OrderingIndex::zero(), vec![9, 9, 9]);
    let packets2: Vec<Vec<u8>> = channel.iter_mut();

    assert_eq!(packet1, None);
    assert!(packets1.is_empty());
    assert_eq!(packet2, Some(vec![9, 9, 9]));
    assert_eq!(packets2, vec![vec![1, 2, 3]]);
}

#[test]
fn process_incoming_ordered_packet_higher_ordering_index_than_expected() {
    let mut channel = OrderingChannel::new();

    let packet1 = channel.process_incoming(None, OrderingIndex::one(), vec![1, 2, 3]);
    let packets1: Vec<Vec<u8>> = channel.iter_mut();
    let packet2 = channel.process_incoming(None, OrderingIndex::zero(), vec![9, 9, 9]);
    let packets2: Vec<Vec<u8>> = channel.iter_mut();

    assert_eq!(packet1, None);
    assert!(packets1.is_empty());
    assert_eq!(packet2, Some(vec![9, 9, 9]));
    assert_eq!(packets2, vec![vec![1, 2, 3]]);
}

#[test]
fn process_incoming_sequenced_packet_wrapping_sequencing_index() {
    let mut channel = OrderingChannel::new();
    let mut sequencing_index = SequencingIndex::zero();
    loop {
        let packet = channel.process_incoming(Some(sequencing_index), OrderingIndex::zero(), vec![1, 2, 3]);
        assert_eq!(packet, Some(vec![1, 2, 3]));
        let packets: Vec<Vec<u8>> = channel.iter_mut();
        assert!(packets.is_empty());
        if sequencing_index < SequencingIndex::max_value() - SequencingIndex::from_masked_u32(500) {
            sequencing_index = sequencing_index + SequencingIndex::from_masked_u32(500);
        } else {
            break;
        }
    }

    let packet = channel.process_incoming(Some(SequencingIndex::zero()), OrderingIndex::zero(), vec![1, 2, 3]);
    let packets: Vec<Vec<u8>> = channel.iter_mut();

    assert_eq!(packet, Some(vec![1, 2, 3]));
    assert!(packets.is_empty());
}

#[test]
fn ordered_packets_out_of_order_are_released_in_order() {
    let mut channel = OrderingChannel::new();
    assert_eq!(channel.process_incoming(None, OrderingIndex::from_masked_u32(2), vec![3]), None);
    assert_eq!(channel.process_incoming(None, OrderingIndex::from_masked_u32(1), vec![2]), None);
    assert!(channel.iter_mut().is_empty());
    assert_eq!(channel.process_incoming(None, OrderingIndex::zero(), vec![1]), Some(vec![1]));
    assert_eq!(channel.iter_mut(), vec![vec![2], vec![3]]);
}

#[test]
fn ordered_packet_with_old_index_is_dropped() {
    let mut channel = OrderingChannel::new();
    assert_eq!(channel.process_incoming(None, OrderingIndex::zero(), vec![1]), Some(vec![1]));
    assert_eq!(channel.process_incoming(None, OrderingIndex::zero(), vec![1]), None);
    assert!(channel.iter_mut().is_empty());
}

#[test]
fn ordered_packets_in_any_order_are_delivered_once_in_order() {
    let mut channel = OrderingChannel::new();
    let mut delivered: Vec<Vec<u8>> = Vec::new();
    for index in [3u32, 1, 0, 4, 2] {
        if let Some(p) = channel.process_incoming(None, OrderingIndex::from_masked_u32(index), vec![index as u8]) {
            delivered.push(p);
        }
        delivered.extend(channel.iter_mut());
    }
    assert_eq!(delivered, vec![vec![0], vec![1], vec![2], vec![3], vec![4]]);
}
