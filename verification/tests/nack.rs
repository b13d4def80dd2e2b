use raknet::datagram_range::DatagramRange;
use raknet::nack::OutgoingNacks;
use raknet::number::DatagramSequenceNumber;

#[test]
fn outgoing_nacks_is_empty_initial_state_empty() {
    let nacks = OutgoingNacks::new();
    assert!(nacks.is_empty());
}

#[test]
fn outgoing_nacks_is_empty_not_empty() {
    let mut nacks = OutgoingNacks::new();
    nacks.handle_datagram(DatagramSequenceNumber::from_masked_u32(1));
    assert!(!nacks.is_empty());
}

#[test]
fn outgoing_nacks_is_empty_is_empty() {
    let mut nacks = OutgoingNacks::new();
    nacks.handle_datagram(DatagramSequenceNumber::from_masked_u32(1));
    nacks.pop_range();
    assert!(nacks.is_empty());
}

#[test]
fn outgoing_nacks_handle_datagram_no_missing_number() {
    let mut nacks = OutgoingNacks::new();

    nacks.handle_datagram(DatagramSequenceNumber::from_masked_u32(0));
    nacks.handle_datagram(DatagramSequenceNumber::from_masked_u32(1));
    nacks.handle_datagram(DatagramSequenceNumber::from_masked_u32(2));
    nacks.handle_datagram(DatagramSequenceNumber::from_masked_u32(3));

    assert_eq!(nacks.pop_range(), None);
}

#[test]
fn outgoing_nacks_handle_datagram_missing_numbers() {
    let mut nacks = OutgoingNacks::new();

    nacks.handle_datagram(DatagramSequenceNumber::from_masked_u32(1));
    nacks.handle_datagram(DatagramSequenceNumber::from_masked_u32(2));
    nacks.handle_datagram(DatagramSequenceNumber::from_masked_u32(4));
    nacks.handle_datagram(DatagramSequenceNumber::from_masked_u32(8));
    nacks.handle_datagram(DatagramSequenceNumber::from_masked_u32(9));

    assert_eq!(nacks.pop_range(), Some(DatagramRange::new(0u8.into(), 0u8.into())));
    assert_eq!(nacks.pop_range(), Some(DatagramRange::new(3u8.into(), 3u8.into())));
    assert_eq!(nacks.pop_range(), Some(DatagramRange::new(5u8.into(), 7u8.into())));
    assert_eq!(nacks.pop_range(), None);
}

#[test]
fn outgoing_nacks_handle_datagram_more_than_1000_missing_numbers() {
    let mut nacks = OutgoingNacks::new();

    nacks.handle_datagram(DatagramSequenceNumber::from_masked_u32(0));
    nacks.handle_datagram(DatagramSequenceNumber::from_masked_u32(1500));
    nacks.handle_datagram(DatagramSequenceNumber::from_masked_u32(3000));

    assert_eq!(nacks.pop_range(), Some(DatagramRange::new(1u16.into(), 1000u16.into())));
    assert_eq!(nacks.pop_range(), Some(DatagramRange::new(1501u16.into(), 2500u16.into())));
    assert_eq!(nacks.pop_range(), None);
}

#[test]
fn outgoing_nacks_handle_datagram_number_less_than_expected() {
    let mut nacks = OutgoingNacks::new();

    nacks.handle_datagram(DatagramSequenceNumber::from_masked_u32(0));
    nacks.handle_datagram(DatagramSequenceNumber::from_masked_u32(1));
    nacks.handle_datagram(DatagramSequenceNumber::from_masked_u32(2));
    nacks.handle_datagram(DatagramSequenceNumber::from_masked_u32(1));
    nacks.handle_datagram(DatagramSequenceNumber::from_masked_u32(3));

    assert_eq!(nacks.pop_range(), None);
}

#[test]
fn outgoing_nacks_handle_datagram_same_number_twice() {
    let mut nacks = OutgoingNacks::new();

    nacks.handle_datagram(DatagramSequenceNumber::from_masked_u32(0));
    nacks.handle_datagram(DatagramSequenceNumber::from_masked_u32(0));

    assert_eq!(nacks.pop_range(), None);
}

#[test]
fn outgoing_nacks_handle_datagram_number_wrapping_less_than_expected() {
    let mut nacks = OutgoingNacks::new();

    nacks.handle_datagram(DatagramSequenceNumber::half_max() + 1u8.into());

    assert_eq!(nacks.pop_range(), None);
}

#[test]
fn outgoing_nacks_handle_datagram_number_wrapping_greater_than_expected() {
    let mut nacks = OutgoingNacks::new();

    nacks.handle_datagram(DatagramSequenceNumber::half_max());

    assert_eq!(nacks.pop_range(), Some(DatagramRange::new(0u16.into(), 999u16.into())));
    assert_eq!(nacks.pop_range(), None);
}

#[test]
fn outgoing_nacks_missing_numbers_across_wrap_around() {
    let mut nacks = OutgoingNacks::new();
    nacks.handle_datagram(DatagramSequenceNumber::from_masked_u32(0xFFFFF0));
    nacks.handle_datagram(DatagramSequenceNumber::from_masked_u32(0xFFFFF1));
    nacks.handle_datagram(DatagramSequenceNumber::from_masked_u32(2));
    let first = nacks.pop_range();
    assert!(first.is_some());
    let mut last = first;
    while let Some(r) = nacks.pop_range() {
        last = Some(r);
    }
    assert_eq!(last.map(|r| r.end()), Some(DatagramSequenceNumber::from_masked_u32(1)));
}
