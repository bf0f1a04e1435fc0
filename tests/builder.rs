use chrono::Utc;
use rand::random;
use spartan::builder::{BuilderError, MessageBuilder};
use spartan::message::{Dispatchable, MessageState, Status};

#[test]
fn creates_message() {
    MessageBuilder::default()
        .body(&random::<[u8; 16]>())
        .max_tries(3)
        .offset(100)
        .delay(|_| Utc::now().timestamp())
        .timeout(40)
        .compose()
        .unwrap();
}

#[test]
#[should_panic]
fn fails_with_empty_body() {
    MessageBuilder::default()
        .max_tries(3)
        .offset(100)
        .delay(|_| Utc::now().timestamp())
        .timeout(40)
        .compose()
        .unwrap();
}

#[test]
fn missing_body_is_an_error() {
    let r = MessageBuilder::default().offset(1).compose();
    assert!(matches!(r, Err(BuilderError::BodyNotProvided)));
    assert_eq!(BuilderError::BodyNotProvided.message(), "no body provided for builder");
}

#[test]
fn defaults_and_attributes() {
    let m = MessageBuilder::default().body(b"Hello, world").compose().unwrap();
    assert_eq!(m.body, b"Hello, world".to_vec());
    assert_eq!(m.offset, 0);
    assert_eq!(m.max_tries, 1);
    assert_eq!(m.timeout, 30);
    assert_eq!(m.delay, None);
    assert_eq!(m.state, MessageState::Available);
    assert_eq!(m.tries, 0);
    let m = MessageBuilder::default()
        .body(b"x")
        .offset(100)
        .max_tries(3)
        .timeout(40)
        .delay(|offset| offset as i64 + 5)
        .compose_with_id(42)
        .unwrap();
    assert_eq!(m.id, 42);
    assert_eq!((m.offset, m.max_tries, m.timeout, m.delay), (100, 3, 40, Some(105)));
}

#[test]
fn fresh_ids_differ() {
    let a = MessageBuilder::default().body(b"x").compose().unwrap();
    let b = MessageBuilder::default().body(b"x").compose().unwrap();
    assert_ne!(a.id, b.id);
}

#[test]
fn message_state_checks() {
    let mut m = MessageBuilder::default().body(b"Hello, world").compose().unwrap();
    assert!(m.obtainable(0));
    assert!(m.has_tries());
    assert!(m.reservable());
    assert!(!m.requeueable());
    m.reserve(50);
    assert_eq!(m.state, MessageState::InTransit(50));
    assert_eq!(m.tries, 1);
    assert!(!m.has_tries());
    assert!(!m.obtainable(60));
    assert!(!m.requeueable());
    assert!(m.gc(60));
    m.requeue();
    assert_eq!(m.state, MessageState::Available);
}

#[test]
fn delayed_message_obtainable_after_delay() {
    let m = MessageBuilder::default().body(b"x").delay(|_| 1000).compose().unwrap();
    assert!(!m.obtainable(999));
    assert!(m.obtainable(1000));
}

#[test]
fn expiry_follows_timeout() {
    let mut m = MessageBuilder::default().body(b"x").max_tries(3).timeout(0).compose().unwrap();
    m.reserve(10);
    assert!(m.gc(10));
    let mut m = MessageBuilder::default().body(b"x").max_tries(3).timeout(30).compose().unwrap();
    m.reserve(10);
    assert!(!m.gc(39));
    assert!(m.gc(40));
    assert!(m.requeueable());
}
