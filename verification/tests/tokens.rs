use qlog_analyzer::address_validation::{
    AddressValidationTokens, Error, MAX_ADDRESS_VALIDATION_TOKEN_LEN,
};

fn with_tokens(tokens: &[&[u8]]) -> AddressValidationTokens {
    let mut manager = AddressValidationTokens::new();
    for token in tokens {
        assert_eq!(manager.push(token), Ok(()));
    }
    manager
}

#[test]
fn a_new_manager_has_nothing_to_send() {
    let manager = AddressValidationTokens::new();
    assert!(!manager.has_pending());
    assert_eq!(manager.next(), None);
}

#[test]
fn empty_and_long_tokens_are_refused() {
    let mut manager = AddressValidationTokens::new();
    assert_eq!(manager.push(&[]), Err(Error::InvalidFrame));
    let long = vec![7u8; MAX_ADDRESS_VALIDATION_TOKEN_LEN + 1];
    assert_eq!(manager.push(&long), Err(Error::BufferTooShort));
    assert!(!manager.has_pending());
    let longest = vec![7u8; MAX_ADDRESS_VALIDATION_TOKEN_LEN];
    assert_eq!(manager.push(&longest), Ok(()));
    assert_eq!(manager.next(), Some(longest.as_slice()));
}

#[test]
fn a_known_token_is_refused_wherever_it_is() {
    let mut manager = with_tokens(&[b"a"]);
    assert_eq!(manager.push(b"a"), Err(Error::InvalidFrame));
    manager.on_packet_sent();
    assert_eq!(manager.push(b"a"), Err(Error::InvalidFrame));
    manager.on_packet_lost(b"a".to_vec());
    assert_eq!(manager.push(b"a"), Err(Error::InvalidFrame));
    manager.on_packet_acked(b"a");
    assert_eq!(manager.push(b"a"), Ok(()));
}

#[test]
fn tokens_leave_in_the_order_in_which_they_came() {
    let mut manager = with_tokens(&[b"a", b"b", b"c"]);
    for expected in [b"a", b"b", b"c"] {
        assert!(manager.has_pending());
        assert_eq!(manager.next(), Some(&expected[..]));
        manager.on_packet_sent();
    }
    assert!(!manager.has_pending());
    manager.on_packet_sent();
    assert_eq!(manager.next(), None);
}

#[test]
fn lost_tokens_go_first() {
    let mut manager = with_tokens(&[b"a", b"b", b"c"]);
    manager.on_packet_sent();
    manager.on_packet_sent();
    manager.on_packet_lost(b"b".to_vec());
    manager.on_packet_lost(b"a".to_vec());
    for expected in [b"b", b"a", b"c"] {
        assert_eq!(manager.next(), Some(&expected[..]));
        manager.on_packet_sent();
    }
    assert!(!manager.has_pending());
}

#[test]
fn only_tokens_in_flight_can_be_lost() {
    let mut manager = with_tokens(&[b"a"]);
    manager.on_packet_lost(b"a".to_vec());
    manager.on_packet_lost(b"x".to_vec());
    manager.on_packet_sent();
    assert!(!manager.has_pending());
    manager.on_packet_lost(b"a".to_vec());
    manager.on_packet_lost(b"a".to_vec());
    manager.on_packet_sent();
    assert!(!manager.has_pending());
}

#[test]
fn an_acknowledgement_wins_over_a_loss() {
    let mut manager = with_tokens(&[b"a"]);
    manager.on_packet_sent();
    manager.on_packet_lost(b"a".to_vec());
    manager.on_packet_acked(b"a");
    assert!(!manager.has_pending());
    manager.on_packet_lost(b"a".to_vec());
    assert!(!manager.has_pending());
}

#[test]
fn an_acknowledgement_leaves_unsent_tokens_alone() {
    let mut manager = with_tokens(&[b"a", b"b"]);
    manager.on_packet_acked(b"b");
    manager.on_packet_acked(b"a");
    manager.on_packet_acked(b"a");
    assert_eq!(manager.next(), Some(&b"a"[..]));
    assert_eq!(manager.push(b"b"), Err(Error::InvalidFrame));
}
