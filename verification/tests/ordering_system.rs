use raknet::constants::NUMBER_OF_ORDERING_CHANNELS;
use raknet::ordering_system::OrderingSystem;

#[test]
fn get_channel_valid_channel_index() {
    let mut ordering_system = OrderingSystem::new();

    let channel = ordering_system.get_channel(NUMBER_OF_ORDERING_CHANNELS - 1);

    assert!(matches!(channel, Some(_channel)));
}

#[test]
fn get_channel_invalid_channel_index() {
    let mut ordering_system = OrderingSystem::new();

    let channel = ordering_system.get_channel(NUMBER_OF_ORDERING_CHANNELS);

    assert!(matches!(channel, None));
}

#[test]
fn get_channel_keeps_channel_state() {
    let mut ordering_system = OrderingSystem::new();
    let channel = ordering_system.get_channel(3).expect("channel");
    let first = channel.process_incoming(None, raknet::number::OrderingIndex::zero(), vec![7]);
    assert_eq!(first, Some(vec![7]));
    let channel = ordering_system.get_channel(3).expect("channel");
    let again = channel.process_incoming(None, raknet::number::OrderingIndex::zero(), vec![7]);
    assert_eq!(again, None);
}
