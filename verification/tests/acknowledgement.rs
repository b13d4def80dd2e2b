use raknet::acknowledgement::OutgoingAcknowledgements;
use raknet::constants::TIME_BEFORE_SENDING_ACKS;
use raknet::datagram_range::DatagramRange;
use raknet::number::DatagramSequenceNumber;

const MS: u64 = 1_000_000;
const START: u64 = 1_000 * MS;

#[test]
fn outgoing_acks_is_empty_initial_state_empty() {
    let acks = OutgoingAcknowledgements::new();
    assert!(acks.is_empty());
}

#[test]
fn outgoing_acks_is_empty_empty() {
    let mut acks = OutgoingAcknowledgements::new();
    acks.insert(DatagramSequenceNumber::from(5u8), START);
    acks.pop_range();
    assert!(acks.is_empty());
}

#[test]
fn outgoing_acks_is_empty_not_empty() {
    let mut acks = OutgoingAcknowledgements::new();
    acks.insert(DatagramSequenceNumber::from(5u8), START);
    assert!(!acks.is_empty());
}

#[test]
fn outgoing_acks_pop_range_empty() {
    let mut acks = OutgoingAcknowledgements::new();
    assert_eq!(acks.pop_range(), None);
}

#[test]
fn outgoing_acks_pop_range_one_range_start_end_same() {
    let mut acks = OutgoingAcknowledgements::new();
    acks.insert(DatagramSequenceNumber::from(1u8), START);

    let range = acks.pop_range();
    let empty = acks.pop_range();

    assert_eq!(range, Some(DatagramRange::new(1u8.into(), 1u8.into())));
    assert_eq!(empty, None);
}

#[test]
fn outgoing_acks_pop_range_one_range_start_end_different() {
    let mut acks = OutgoingAcknowledgements::new();
    acks.insert(DatagramSequenceNumber::from(1u8), START);
    acks.insert(DatagramSequenceNumber::from(2u8), START);
    acks.insert(DatagramSequenceNumber::from(3u8), START);

    let range = acks.pop_range();
    let empty = acks.pop_range();

    assert_eq!(range, Some(DatagramRange::new(1u8.into(), 3u8.into())));
    assert_eq!(empty, None);
}

#[test]
fn outgoing_acks_pop_range_multiple_ranges() {
    let mut acks = OutgoingAcknowledgements::new();
    acks.insert(DatagramSequenceNumber::from(1u8), START);

    acks.insert(DatagramSequenceNumber::from(5u8), START);
    acks.insert(DatagramSequenceNumber::from(6u8), START);
    acks.insert(DatagramSequenceNumber::from(7u8), START);

    acks.insert(DatagramSequenceNumber::from(10u8), START);
    acks.insert(DatagramSequenceNumber::from(11u8), START);

    acks.insert(DatagramSequenceNumber::from(20u8), START);

    let range1 = acks.pop_range();
    let range2 = acks.pop_range();
    let range3 = acks.pop_range();
    let range4 = acks.pop_range();
    let empty = acks.pop_range();

    assert_eq!(range1, Some(DatagramRange::new(1u8.into(), 1u8.into())));
    assert_eq!(range2, Some(DatagramRange::new(5u8.into(), 7u8.into())));
    assert_eq!(range3, Some(DatagramRange::new(10u8.into(), 11u8.into())));
    assert_eq!(range4, Some(DatagramRange::new(20u8.into(), 20u8.into())));
    assert_eq!(empty, None);
}

#[test]
fn outgoing_acks_should_send_acks_initial_state() {
    let acks = OutgoingAcknowledgements::new();
    assert!(!acks.should_send_acks(START));
}

#[test]
fn outgoing_acks_should_send_acks_one_number() {
    let mut acks = OutgoingAcknowledgements::new();
    let time = START;
    acks.insert(DatagramSequenceNumber::from(1u8), time);

    assert!(!acks.should_send_acks(time + (TIME_BEFORE_SENDING_ACKS - MS)));
    assert!(!acks.should_send_acks(time + TIME_BEFORE_SENDING_ACKS));
    assert!(acks.should_send_acks(time + (TIME_BEFORE_SENDING_ACKS + MS)));
}

#[test]
fn outgoing_acks_should_send_acks_multiple_numbers() {
    let mut acks = OutgoingAcknowledgements::new();
    let time = START;
    acks.insert(DatagramSequenceNumber::from(1u8), time);
    acks.insert(DatagramSequenceNumber::from(2u8), time + 100 * MS);
    acks.insert(DatagramSequenceNumber::from(10u8), time + 200 * MS);
    acks.insert(DatagramSequenceNumber::from(11u8), time + 300 * MS);

    assert!(!acks.should_send_acks(time + (TIME_BEFORE_SENDING_ACKS - MS)));
    assert!(!acks.should_send_acks(time + TIME_BEFORE_SENDING_ACKS));
    assert!(acks.should_send_acks(time + (TIME_BEFORE_SENDING_ACKS + MS)));
}

#[test]
fn outgoing_acks_should_send_acks_before_first_time() {
    let mut acks = OutgoingAcknowledgements::new();
    acks.insert(DatagramSequenceNumber::from(1u8), START);
    assert!(!acks.should_send_acks(START - 100 * MS));
}

#[test]
fn outgoing_acks_duplicate_number_is_acknowledged_twice() {
    let mut acks = OutgoingAcknowledgements::new();
    acks.insert(DatagramSequenceNumber::from(4u8), START);
    acks.insert(DatagramSequenceNumber::from(4u8), START);
    assert_eq!(acks.pop_range(), Some(DatagramRange::new(4u8.into(), 4u8.into())));
    assert_eq!(acks.pop_range(), Some(DatagramRange::new(4u8.into(), 4u8.into())));
    assert_eq!(acks.pop_range(), None);
}

#[test]
fn outgoing_acks_are_due_a_nanosecond_after_the_delay() {
    let mut acks = OutgoingAcknowledgements::new();
    acks.insert(DatagramSequenceNumber::from(1u8), START);
    assert!(!acks.should_send_acks(START + TIME_BEFORE_SENDING_ACKS));
    assert!(acks.should_send_acks(START + TIME_BEFORE_SENDING_ACKS + 1));
}
