use raknet::number::MessageNumber;
use raknet::reliable_message_number_handler::ReliableMessageNumberHandler;

#[test]
fn should_discard_packet_initial_state() {
    let mut handler = ReliableMessageNumberHandler::new();

    let should_discard = handler.should_discard_packet(MessageNumber::from_masked_u32(0));

    assert!(!should_discard);
}

#[test]
fn should_discard_packet_ordered_numbers() {
    let mut handler = ReliableMessageNumberHandler::new();

    let should_discard1 = handler.should_discard_packet(MessageNumber::from_masked_u32(0));
    let should_discard2 = handler.should_discard_packet(MessageNumber::from_masked_u32(1));
    let should_discard3 = handler.should_discard_packet(MessageNumber::from_masked_u32(2));
    let should_discard4 = handler.should_discard_packet(MessageNumber::from_masked_u32(3));

    assert!(!should_discard1);
    assert!(!should_discard2);
    assert!(!should_discard3);
    assert!(!should_discard4);
}

#[test]
fn should_discard_packet_unordered_numbers() {
    let mut handler = ReliableMessageNumberHandler::new();

    let should_discard1 = handler.should_discard_packet(MessageNumber::from_masked_u32(3));
    let should_discard2 = handler.should_discard_packet(MessageNumber::from_masked_u32(1));
    let should_discard3 = handler.should_discard_packet(MessageNumber::from_masked_u32(0));
    let should_discard4 = handler.should_discard_packet(MessageNumber::from_masked_u32(2));

    assert!(!should_discard1);
    assert!(!should_discard2);
    assert!(!should_discard3);
    assert!(!should_discard4);
}

#[test]
fn should_discard_packet_duplicate_numbers() {
    let mut handler = ReliableMessageNumberHandler::new();

    let should_discard1 = handler.should_discard_packet(MessageNumber::from_masked_u32(0));
    let should_discard2 = handler.should_discard_packet(MessageNumber::from_masked_u32(1));
    let should_discard3 = handler.should_discard_packet(MessageNumber::from_masked_u32(0));
    let should_discard4 = handler.should_discard_packet(MessageNumber::from_masked_u32(1));
    let should_discard5 = handler.should_discard_packet(MessageNumber::from_masked_u32(2));

    assert!(!should_discard1);
    assert!(!should_discard2);
    assert!(should_discard3);
    assert!(should_discard4);
    assert!(!should_discard5);
}

#[test]
fn should_discard_packet_too_out_of_order() {
    let mut handler = ReliableMessageNumberHandler::new();

    let should_discard1 = handler.should_discard_packet(MessageNumber::from_masked_u32(1000000));
    let should_discard2 = handler.should_discard_packet(MessageNumber::from_masked_u32(1000001));
    let should_discard3 = handler.should_discard_packet(MessageNumber::half_max() + MessageNumber::one());

    assert!(!should_discard1);
    assert!(should_discard2);
    assert!(should_discard3);
}

#[test]
fn should_discard_packet_wrapping() {
    let mut handler = ReliableMessageNumberHandler::new();
    let mut number = MessageNumber::zero();
    loop {
        assert!(!handler.should_discard_packet(number));
        if number < MessageNumber::max_value() {
            number = number + MessageNumber::one();
        } else {
            break;
        }
    }

    let should_discard = handler.should_discard_packet(MessageNumber::zero());

    assert!(!should_discard);
}

#[test]
fn get_and_increment_reliable_message_number_keeps_the_counter() {
    let mut handler = ReliableMessageNumberHandler::new();
    assert_eq!(handler.get_and_increment_reliable_message_number(), MessageNumber::zero());
    assert_eq!(handler.get_and_increment_reliable_message_number(), MessageNumber::zero());
    assert_eq!(handler.get_and_increment_reliable_message_number(), MessageNumber::zero());
}

#[test]
fn duplicate_window_accepts_each_number_once() {
    let mut handler = ReliableMessageNumberHandler::new();
    assert!(!handler.should_discard_packet(MessageNumber::from_masked_u32(0)));
    assert!(!handler.should_discard_packet(MessageNumber::from_masked_u32(3)));
    assert!(!handler.should_discard_packet(MessageNumber::from_masked_u32(2)));
    assert!(handler.should_discard_packet(MessageNumber::from_masked_u32(3)));
    assert!(handler.should_discard_packet(MessageNumber::from_masked_u32(0)));
    assert!(!handler.should_discard_packet(MessageNumber::from_masked_u32(1)));
    assert!(handler.should_discard_packet(MessageNumber::from_masked_u32(2)));
    assert!(handler.should_discard_packet(MessageNumber::from_masked_u32(1_000_005)));
    assert!(!handler.should_discard_packet(MessageNumber::from_masked_u32(1_000_004)));
}
