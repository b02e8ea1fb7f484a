use lithium::config::EntityManagerConfig;
use lithium::idpool::{IdPool, ID_LIMIT};
use lithium::input::{decode_inputs, encode_inputs, EntityInput};
use lithium::network::{frame_message, split_message, Message};
use lithium::tick::tick_is_more_recent;

#[test]
fn tick_more_recent_plain() {
    assert!(tick_is_more_recent(5, 4));
    assert!(!tick_is_more_recent(4, 5));
    assert!(!tick_is_more_recent(7, 7));
}

#[test]
fn tick_more_recent_wraps() {
    assert!(tick_is_more_recent(0, 255));
    assert!(!tick_is_more_recent(255, 0));
    assert!(tick_is_more_recent(10, 200));
}

#[test]
fn tick_more_recent_half_circle() {
    // 128 ahead counts as more recent, 129 ahead does not.
    assert!(tick_is_more_recent(128, 0));
    assert!(!tick_is_more_recent(0, 128));
    assert!(!tick_is_more_recent(129, 0));
    assert!(tick_is_more_recent(0, 129));
}

#[test]
fn idpool_hands_out_ids_in_order() {
    let mut pool = IdPool::new();
    assert_eq!(pool.get_id(), Some(0));
    assert_eq!(pool.get_id(), Some(1));
    assert_eq!(pool.get_id(), Some(2));
}

#[test]
fn idpool_released_ids_are_not_reused_at_once() {
    let mut pool = IdPool::new();
    assert_eq!(pool.get_id(), Some(0));
    assert_eq!(pool.get_id(), Some(1));
    pool.release_id(0);
    // probing continues from where it stopped
    assert_eq!(pool.get_id(), Some(2));
    // releasing an id that is not out changes nothing
    pool.release_id(40);
    assert_eq!(pool.get_id(), Some(3));
}

#[test]
fn idpool_reset_starts_over() {
    let mut pool = IdPool::new();
    pool.get_id();
    pool.get_id();
    pool.reset();
    assert_eq!(pool.get_id(), Some(0));
}

#[test]
fn idpool_exhaustion_and_wrap() {
    let mut pool = IdPool::new();
    for expected in 0..ID_LIMIT {
        assert_eq!(pool.get_id(), Some(expected));
    }
    assert_eq!(pool.get_id(), None);
    pool.release_id(5);
    // the probe wraps around past the top of the id space to the free id
    assert_eq!(pool.get_id(), Some(5));
    assert_eq!(pool.get_id(), None);
}

#[test]
fn message_tags() {
    assert_eq!(Message::from_u8(0), Message::ServerConfig);
    assert_eq!(Message::from_u8(1), Message::ServerState);
    assert_eq!(Message::from_u8(2), Message::ServerEvents);
    assert_eq!(Message::from_u8(3), Message::ClientInput);
    assert_eq!(Message::from_u8(4), Message::ClientEvents);
    assert_eq!(Message::from_u8(5), Message::Unknown);
    assert_eq!(Message::from_u8(255), Message::Unknown);
    assert_eq!(Message::ClientEvents.to_u8(), 4);
    assert_eq!(Message::Unknown.to_u8(), 255);
    for m in [
        Message::ServerConfig,
        Message::ServerState,
        Message::ServerEvents,
        Message::ClientInput,
        Message::ClientEvents,
        Message::Unknown,
    ] {
        assert_eq!(Message::from_u8(m.to_u8()), m);
    }
}

#[test]
fn message_framing() {
    let msg = frame_message(Message::ServerState, &[9, 8, 7]);
    assert_eq!(msg, vec![1, 9, 8, 7]);
    let (kind, payload) = split_message(&msg).unwrap();
    assert_eq!(kind, Message::ServerState);
    assert_eq!(payload, &[9, 8, 7]);
    assert!(split_message(&[]).is_none());
    let (kind, payload) = split_message(&[77]).unwrap();
    assert_eq!(kind, Message::Unknown);
    assert!(payload.is_empty());
}

#[test]
fn config_encoding() {
    let c = EntityManagerConfig { buffered_ticks: 30, interpolation_ticks: 3, tick_rate: 30 };
    assert_eq!(EntityManagerConfig::encoded_size(), 3);
    let bytes = c.serialize();
    assert_eq!(bytes, vec![30, 3, 30]);
    let mut with_level = bytes.clone();
    with_level.extend_from_slice(&[1, 2, 3, 4]);
    assert_eq!(EntityManagerConfig::from_serialized(&with_level), c);
}

#[test]
fn input_encoding() {
    let i = EntityInput { tick: 12, fields: 5 };
    assert_eq!(EntityInput::encoded_size(), 2);
    assert_eq!(i.serialize(), vec![12, 5]);
    assert_eq!(EntityInput::from_serialized(&[12, 5]), i);
    let inputs = vec![EntityInput { tick: 1, fields: 2 }, EntityInput { tick: 3, fields: 4 }];
    let bytes = encode_inputs(&inputs);
    assert_eq!(bytes, vec![1, 2, 3, 4]);
    assert_eq!(decode_inputs(&bytes), inputs);
    assert!(decode_inputs(&[]).is_empty());
}
