use std::convert::TryFrom;

use raknet::datagram_range::DatagramRange;
use raknet::datagram_range_list::DatagramRangeList;
use raknet::number::DatagramSequenceNumber;

#[test]
fn datagram_range_list_write_one_range_one_datagram() {
    let mut range_list = DatagramRangeList::new();
    range_list.push(DatagramRange::new(DatagramSequenceNumber::from(5u8), DatagramSequenceNumber::from(5u8)));
    let mut buf = Vec::new();

    range_list.write(&mut buf).expect("Couldn't write ack");

    assert_eq!(buf, vec![
        0x00, 0x01, // Range count: 0x0001
        0x01, // Start equal to end? 0x01=yes
        0x05, 0x00, 0x00, // Datagram number: 0x000005
    ]);
}

#[test]
fn datagram_range_list_write_one_range_multiple_acks() {
    let mut range_list = DatagramRangeList::new();
    range_list.push(DatagramRange::new(DatagramSequenceNumber::from(0u8), DatagramSequenceNumber::from(0xFFu8)));
    let mut buf = Vec::new();

    range_list.write(&mut buf).expect("Couldn't write ack");

    assert_eq!(buf, vec![
        0x00, 0x01, // Range count: 0x0001
        0x00, // Start equal to end? 0x00=no
        0x00, 0x00, 0x00, // Start datagram number: 0x000000
        0xFF, 0x00, 0x00, // End datagram number: 0x0000FF
    ]);
}

#[test]
fn datagram_range_list_write_multiple_ranges() {
    let mut range_list = DatagramRangeList::new();
    range_list.push(DatagramRange::new(DatagramSequenceNumber::from(0u8), DatagramSequenceNumber::from(0u8)));
    range_list.push(DatagramRange::new(DatagramSequenceNumber::from(5u8), DatagramSequenceNumber::from(0xFFu8)));
    range_list.push(DatagramRange::new(DatagramSequenceNumber::try_from(0x123456).unwrap(), DatagramSequenceNumber::try_from(0x334455).unwrap()));
    let mut buf = Vec::new();

    range_list.write(&mut buf).expect("Couldn't write ack");

    assert_eq!(buf, vec![
        0x00, 0x03, // Range count: 0x0003
        0x01, // Start equal to end? 0x01=yes
        0x00, 0x00, 0x00, // Datagram number: 0x000000
        0x00, // Start equal to end? 0x00=no
        0x05, 0x00, 0x00, // Start datagram number: 0x000005
        0xFF, 0x00, 0x00, // End datagram number: 0x0000FF
        0x00, // Start equal to end? 0x00=no
        0x56, 0x34, 0x12, // Start datagram number: 0x123456
        0x55, 0x44, 0x33, // End datagram number: 0x334455
    ]);
}

#[test]
fn datagram_range_list_bytes_used_one_range_one_ack() {
    let mut range_list = DatagramRangeList::new();
    range_list.push(DatagramRange::new(DatagramSequenceNumber::from(5u8), DatagramSequenceNumber::from(5u8)));
    assert_eq!(range_list.bytes_used(), 2 + (1 + 3));
}

#[test]
fn datagram_range_list_bytes_used_multiple_ranges() {
    let mut range_list = DatagramRangeList::new();
    range_list.push(DatagramRange::new(DatagramSequenceNumber::from(0u8), DatagramSequenceNumber::from(0u8)));
    range_list.push(DatagramRange::new(DatagramSequenceNumber::from(5u8), DatagramSequenceNumber::from(0xFFu8)));
    range_list.push(DatagramRange::new(DatagramSequenceNumber::try_from(0x123456).unwrap(), DatagramSequenceNumber::try_from(0x334455).unwrap()));
    assert_eq!(range_list.bytes_used(), 2 + (1 + 3) + (1 + 3 + 3) + (1 + 3 + 3));
}

#[test]
fn datagram_range_list_is_full_no_range() {
    let range_list = DatagramRangeList::new();

    assert!(range_list.is_full(2));
    assert!(range_list.is_full(2 + (1 + 3 + 2)));

    assert!(!range_list.is_full(2 + (1 + 3 + 3)));
    assert!(!range_list.is_full(2 + (1 + 3 + 4)));
}

#[test]
fn datagram_range_list_is_full_multiple_ranges() {
    let mut range_list = DatagramRangeList::new();
    range_list.push(DatagramRange::new(DatagramSequenceNumber::from(0u8), DatagramSequenceNumber::from(0u8)));
    range_list.push(DatagramRange::new(DatagramSequenceNumber::from(5u8), DatagramSequenceNumber::from(0xFFu8)));
    range_list.push(DatagramRange::new(DatagramSequenceNumber::try_from(0x123456).unwrap(), DatagramSequenceNumber::try_from(0x334455).unwrap()));

    assert!(range_list.is_full(2 + (1 + 3 + 3)));
    assert!(range_list.is_full(2 + (1 + 3) + (1 + 3 + 3) + (1 + 3 + 3)));
    assert!(range_list.is_full(2 + (1 + 3) + (1 + 3 + 3) + (1 + 3 + 3) + (1 + 3 + 2)));

    assert!(!range_list.is_full(2 + (1 + 3) + (1 + 3 + 3) + (1 + 3 + 3) + (1 + 3 + 3)));
    assert!(!range_list.is_full(2 + (1 + 3) + (1 + 3 + 3) + (1 + 3 + 3) + (1 + 3 + 4)));
}

#[test]
fn datagram_range_list_into_vec_keeps_order() {
    let mut range_list = DatagramRangeList::new();
    range_list.push(DatagramRange::new(DatagramSequenceNumber::from(9u8), DatagramSequenceNumber::from(9u8)));
    range_list.push(DatagramRange::new(DatagramSequenceNumber::from(1u8), DatagramSequenceNumber::from(3u8)));
    let ranges = range_list.into_vec();
    assert_eq!(ranges, vec![
        DatagramRange::new(9u8.into(), 9u8.into()),
        DatagramRange::new(1u8.into(), 3u8.into()),
    ]);
}
