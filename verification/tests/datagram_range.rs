use std::convert::TryFrom;

use raknet::datagram_range::DatagramRange;
use raknet::number::DatagramSequenceNumber;

#[test]
fn datagram_range_initial_values() {
    let range = DatagramRange::new(DatagramSequenceNumber::from(7u8), DatagramSequenceNumber::from(255u8));
    assert_eq!(range.start(), 7u8.into());
    assert_eq!(range.end(), 255u8.into());
}

#[test]
fn datagram_range_push_can_push() {
    let mut range = DatagramRange::new(DatagramSequenceNumber::from(7u8), DatagramSequenceNumber::from(200u8));

    assert!(range.push(201u8.into()));
    assert!(range.push(202u8.into()));

    assert_eq!(range.start(), 7u8.into());
    assert_eq!(range.end(), 202u8.into());
}

#[test]
fn datagram_range_push_out_of_sequence() {
    let mut range = DatagramRange::new(DatagramSequenceNumber::from(7u8), DatagramSequenceNumber::from(200u8));

    assert!(!range.push(199u8.into()));
    assert!(!range.push(202u8.into()));

    assert_eq!(range.start(), 7u8.into());
    assert_eq!(range.end(), 200u8.into());
}

#[test]
fn datagram_range_push_end_of_sequence() {
    let mut range = DatagramRange::new(7u8.into(), DatagramSequenceNumber::try_from(0xFFFFFEu32).unwrap());

    assert!(range.push(DatagramSequenceNumber::try_from(0xFFFFFFu32).unwrap()));
    assert!(!range.push(0u8.into()));

    assert_eq!(range.start(), 7u8.into());
    assert_eq!(range.end(), DatagramSequenceNumber::try_from(0xFFFFFFu32).unwrap());
}
