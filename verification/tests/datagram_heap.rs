use raknet::datagram_heap::DatagramHeap;
use raknet::datagram_range::DatagramRange;
use raknet::number::DatagramSequenceNumber;

#[test]
fn datagram_heap_is_empty_initial_state_empty() {
    let heap = DatagramHeap::new();
    assert!(heap.is_empty());
}

#[test]
fn datagram_heap_is_empty_empty() {
    let mut heap = DatagramHeap::new();
    heap.push(DatagramSequenceNumber::from(5u8));
    heap.pop_range();
    assert!(heap.is_empty());
}

#[test]
fn datagram_heap_is_empty_not_empty() {
    let mut heap = DatagramHeap::new();
    heap.push(DatagramSequenceNumber::from(5u8));
    assert!(!heap.is_empty());
}

#[test]
fn datagram_heap_pop_range_empty() {
    let mut heap = DatagramHeap::new();
    assert_eq!(heap.pop_range(), None);
}

#[test]
fn datagram_heap_pop_range_one_range_start_end_same() {
    let mut heap = DatagramHeap::new();
    heap.push(DatagramSequenceNumber::from(1u8));

    let range = heap.pop_range();
    let empty = heap.pop_range();

    assert_eq!(range, Some(DatagramRange::new(1u8.into(), 1u8.into())));
    assert_eq!(empty, None);
}

#[test]
fn datagram_heap_pop_range_one_range_start_end_different() {
    let mut heap = DatagramHeap::new();
    heap.push(DatagramSequenceNumber::from(1u8));
    heap.push(DatagramSequenceNumber::from(2u8));
    heap.push(DatagramSequenceNumber::from(3u8));

    let range = heap.pop_range();
    let empty = heap.pop_range();

    assert_eq!(range, Some(DatagramRange::new(1u8.into(), 3u8.into())));
    assert_eq!(empty, None);
}

#[test]
fn datagram_heap_pop_range_multiple_ranges() {
    let mut heap = DatagramHeap::new();
    heap.push(DatagramSequenceNumber::from(1u8));

    heap.push(DatagramSequenceNumber::from(5u8));
    heap.push(DatagramSequenceNumber::from(6u8));
    heap.push(DatagramSequenceNumber::from(7u8));

    heap.push(DatagramSequenceNumber::from(10u8));
    heap.push(DatagramSequenceNumber::from(11u8));

    heap.push(DatagramSequenceNumber::from(20u8));

    let range1 = heap.pop_range();
    let range2 = heap.pop_range();
    let range3 = heap.pop_range();
    let range4 = heap.pop_range();
    let empty = heap.pop_range();

    assert_eq!(range1, Some(DatagramRange::new(1u8.into(), 1u8.into())));
    assert_eq!(range2, Some(DatagramRange::new(5u8.into(), 7u8.into())));
    assert_eq!(range3, Some(DatagramRange::new(10u8.into(), 11u8.into())));
    assert_eq!(range4, Some(DatagramRange::new(20u8.into(), 20u8.into())));
    assert_eq!(empty, None);
}

#[test]
fn datagram_heap_pop_range_numbers_pushed_out_of_order() {
    let mut heap = DatagramHeap::new();
    heap.push(DatagramSequenceNumber::from(9u8));
    heap.push(DatagramSequenceNumber::from(3u8));
    heap.push(DatagramSequenceNumber::from(8u8));
    heap.push(DatagramSequenceNumber::from(2u8));

    assert_eq!(heap.pop_range(), Some(DatagramRange::new(2u8.into(), 3u8.into())));
    assert_eq!(heap.pop_range(), Some(DatagramRange::new(8u8.into(), 9u8.into())));
    assert_eq!(heap.pop_range(), None);
}

#[test]
fn popped_ranges_cover_the_held_numbers() {
    let mut heap = DatagramHeap::new();
    for n in [5u32, 1, 8, 2, 3, 7] {
        heap.push(DatagramSequenceNumber::from_masked_u32(n));
    }
    let mut ranges: Vec<(u32, u32)> = Vec::new();
    while let Some(range) = heap.pop_range() {
        ranges.push((range.start().value(), range.end().value()));
    }
    assert_eq!(ranges, vec![(1, 3), (5, 5), (7, 8)]);
    assert!(heap.is_empty());
}
