use chrono::Utc;
use spartan::builder::MessageBuilder;
use spartan::message::{Message, MessageState};
use spartan::persistence::{decode_queue, encode_queue};
use spartan::tree::TreeDatabase;

fn now() -> i64 {
    Utc::now().timestamp()
}

fn create_database() -> TreeDatabase {
    TreeDatabase::default()
}

fn create_message() -> Message {
    MessageBuilder::default().body(b"Hello world").compose().unwrap()
}

fn create_delayed(delay: i64) -> Message {
    MessageBuilder::default()
        .body(b"Hello world")
        .delay(|_| delay)
        .compose()
        .unwrap()
}

fn at_hour(hour: u32) -> i64 {
    Utc::now()
        .date_naive()
        .and_hms_opt(hour, 0, 0)
        .unwrap()
        .and_utc()
        .timestamp()
}

fn take_first(database: &mut TreeDatabase, expected: &Message) {
    let pos = database.position(|_| true).unwrap();
    assert_eq!(database.get(pos).unwrap().id, expected.id);
    database.delete_pos(pos).unwrap();
}

#[test]
fn mod_test_push() {
    let mut database = create_database();
    let message = create_message();
    database.push_raw(message);
    assert_eq!(database.store_len(), 1);
    assert_eq!(database.index_len(), 1);
}

#[test]
fn test_position_get() {
    let mut database = create_database();
    let message1 = create_message();
    let message2 = create_delayed(at_hour(1));
    let message3 = create_delayed(at_hour(4));
    let message4 = create_delayed(at_hour(3));
    database.push_raw(message1.duplicate());
    database.push_raw(message2.duplicate());
    database.push_raw(message3.duplicate());
    database.push_raw(message4.duplicate());

    take_first(&mut database, &message1);
    take_first(&mut database, &message2);
    take_first(&mut database, &message4);
    take_first(&mut database, &message3);
}

#[test]
fn test_get_mut() {
    let mut database = create_database();
    let message = create_message();
    database.push_raw(message);
    let pos = database.position(|_| true).unwrap();
    database.reserve(pos, now()).unwrap();
}

#[test]
fn test_delete() {
    let mut database = create_database();
    let message1 = create_message();
    let message2 = create_delayed(at_hour(1));
    database.push_raw(message1);
    database.push_raw(message2.duplicate());
    assert_eq!(database.store_len(), 2);
    assert_eq!(database.index_len(), 2);
    let pos = database.position(|_| true).unwrap();
    database.delete_pos(pos).unwrap();
    assert_eq!(database.store_len(), 1);
    assert_eq!(database.index_len(), 1);
    let pos = database.position(|_| true).unwrap();
    assert_eq!(database.get(pos).unwrap().id, message2.id);
}

#[test]
fn test_retain() {
    let mut database = create_database();
    let message1 = create_message();
    let message2 = create_message();
    database.push_raw(message1);
    database.push_raw(message2.duplicate());
    database.retain(|message| message.id == message2.id);
    assert_eq!(database.store_len(), 1);
    assert_eq!(database.index_len(), 1);
    let pos = database.position(|_| true).unwrap();
    assert_eq!(database.get(pos).unwrap().id, message2.id);
}

#[test]
fn test_len_clear() {
    let mut database = create_database();
    assert_eq!(database.len(), 0);
    database.push_raw(create_message());
    database.push_raw(create_message());
    database.push_raw(create_message());
    database.push_raw(create_message());
    assert_eq!(database.len(), 4);
    database.clear();
    assert_eq!(database.len(), 0);
}

#[test]
fn test_is_empty() {
    let mut db = create_database();
    assert!(db.is_empty());
    db.push_raw(create_message());
    assert!(!db.is_empty());
}

#[test]
fn pop_reserves_the_message() {
    let mut db = create_database();
    db.push_raw(MessageBuilder::default().body(b"Hello, world").compose().unwrap());
    let t = now();
    let m = db.pop(t).unwrap();
    assert_eq!(m.body, b"Hello, world".to_vec());
    assert_eq!(m.state, MessageState::InTransit(t));
    assert_eq!(m.tries, 1);
    assert_eq!(db.len(), 1);
    assert!(db.pop(t).is_none());
}

#[test]
fn delayed_message_is_not_popped() {
    let mut db = create_database();
    let t = now();
    db.push_raw(create_delayed(t + 900));
    assert!(db.pop(t).is_none());
    assert!(db.peek(t).is_none());
    assert_eq!(db.len(), 1);
    assert!(db.pop(t + 900).is_some());
}

#[test]
fn smaller_offset_pops_first() {
    let mut db = create_database();
    let a = MessageBuilder::default().body(b"A").offset(10).compose().unwrap();
    let b = MessageBuilder::default().body(b"B").offset(0).compose().unwrap();
    db.push_raw(a.duplicate());
    db.push_raw(b.duplicate());
    let t = now();
    assert_eq!(db.pop(t).unwrap().id, b.id);
    assert_eq!(db.pop(t).unwrap().id, a.id);
}

#[test]
fn equal_keys_keep_insertion_order() {
    let mut db = create_database();
    let a = create_message();
    let b = create_message();
    let c = create_message();
    db.push_raw(a.duplicate());
    db.push_raw(b.duplicate());
    db.push_raw(c.duplicate());
    let t = now();
    assert_eq!(db.peek(t).unwrap().id, a.id);
    assert_eq!(db.pop(t).unwrap().id, a.id);
    assert_eq!(db.pop(t).unwrap().id, b.id);
    assert_eq!(db.pop(t).unwrap().id, c.id);
}

#[test]
fn pushing_an_id_again_replaces_it() {
    let mut db = create_database();
    let a = MessageBuilder::default().body(b"first").compose_with_id(7).unwrap();
    let b = MessageBuilder::default().body(b"second").compose_with_id(7).unwrap();
    db.push_raw(a);
    db.push_raw(b);
    assert_eq!(db.len(), 1);
    assert_eq!(db.store_len(), db.index_len());
    assert_eq!(db.get(7).unwrap().body, b"second".to_vec());
}

#[test]
fn requeue_needs_tries_left() {
    let mut db = create_database();
    let m = MessageBuilder::default().body(b"x").max_tries(2).compose().unwrap();
    let id = m.id;
    db.push_raw(m);
    let t = now();
    assert!(db.requeue(id).is_none());
    db.pop(t).unwrap();
    assert_eq!(db.requeue(id), Some(()));
    assert_eq!(db.get(id).unwrap().state, MessageState::Available);
    db.pop(t).unwrap();
    assert!(db.requeue(id).is_none());
    assert!(db.requeue(12345).is_none());
}

#[test]
fn gc_removes_exhausted_and_expired() {
    let mut db = create_database();
    let exhausted = MessageBuilder::default().body(b"a").max_tries(1).compose().unwrap();
    let expiring = MessageBuilder::default().body(b"b").max_tries(3).timeout(10).compose().unwrap();
    let fresh = MessageBuilder::default().body(b"c").max_tries(3).compose().unwrap();
    let (e1, e2, e3) = (exhausted.id, expiring.id, fresh.id);
    db.push_raw(exhausted);
    db.push_raw(expiring);
    db.push_raw(fresh);
    let t = 1_000_000;
    db.reserve(e1, t).unwrap();
    db.requeue(e1);
    db.reserve(e2, t).unwrap();
    db.gc(t + 5);
    assert_eq!(db.len(), 2);
    assert!(db.get(e1).is_none());
    db.gc(t + 10);
    assert_eq!(db.len(), 1);
    assert!(db.get(e2).is_none());
    assert!(db.get(e3).is_some());
}

#[test]
fn delete_returns_the_message() {
    let mut db = create_database();
    let m = create_message();
    let id = m.id;
    db.push_raw(m);
    let removed = db.delete(id).unwrap();
    assert_eq!(removed.id, id);
    assert!(db.delete(id).is_none());
    assert!(db.is_empty());
}

#[test]
fn snapshot_round_trip() {
    let mut db = create_database();
    db.push_raw(MessageBuilder::default().body(b"one").offset(-3).compose().unwrap());
    db.push_raw(create_delayed(77));
    db.push_raw(MessageBuilder::default().body(b"").max_tries(5).timeout(9).compose().unwrap());
    db.pop(100).unwrap();
    let bytes = encode_queue(&db);
    let back = decode_queue(&bytes).unwrap();
    assert_eq!(back.len(), db.len());
    assert_eq!(back.next_seq_now(), db.next_seq_now());
    for k in 0..db.len() {
        let (s1, m1) = db.item_at(k);
        let (s2, m2) = back.item_at(k);
        assert_eq!(s1, s2);
        assert_eq!(m1.id, m2.id);
        assert_eq!(m1.body, m2.body);
        assert_eq!(m1.offset, m2.offset);
        assert_eq!(m1.delay, m2.delay);
        assert_eq!(m1.state, m2.state);
        assert_eq!(m1.tries, m2.tries);
        assert_eq!(m1.max_tries, m2.max_tries);
        assert_eq!(m1.timeout, m2.timeout);
    }
    assert_eq!(encode_queue(&back), bytes);
}

#[test]
fn snapshot_of_empty_queue() {
    let db = create_database();
    let bytes = encode_queue(&db);
    assert_eq!(bytes, vec![0u8; 16]);
    assert!(decode_queue(&bytes).unwrap().is_empty());
}

#[test]
fn malformed_snapshot_is_refused() {
    assert!(decode_queue(&[1, 2, 3]).is_none());
    let mut db = create_database();
    db.push_raw(create_message());
    let mut bytes = encode_queue(&db);
    bytes.push(0);
    assert!(decode_queue(&bytes).is_none());
    bytes.pop();
    bytes.pop();
    assert!(decode_queue(&bytes).is_none());
}

#[test]
fn restore_refuses_unsorted_items() {
    let a = MessageBuilder::default().body(b"a").offset(5).compose_with_id(1).unwrap();
    let b = MessageBuilder::default().body(b"b").offset(1).compose_with_id(2).unwrap();
    assert!(TreeDatabase::restore(2, &vec![(0, b.duplicate()), (1, a.duplicate())]).is_some());
    assert!(TreeDatabase::restore(2, &vec![(0, a.duplicate()), (1, b.duplicate())]).is_none());
    assert!(TreeDatabase::restore(1, &vec![(0, b.duplicate()), (1, a.duplicate())]).is_none());
    let a2 = MessageBuilder::default().body(b"a").offset(9).compose_with_id(2).unwrap();
    assert!(TreeDatabase::restore(3, &vec![(0, b), (1, a2)]).is_none());
}
