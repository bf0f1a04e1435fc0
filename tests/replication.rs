use spartan::access::{Access, AccessError, KeyHeader};
use spartan::builder::MessageBuilder;
use spartan::config::{AccessKey, ManagerError};
use spartan::event::Event;
use spartan::message::{Message, MessageState, Status};
use spartan::persistence::{decode_log, encode_log_record, load_log};
use spartan::protocol::{
    check_response, decode_request, encode_frame, encode_request, expect_primary, frame_length, index_reply,
    ping_reply, range_reply, PrimaryError, PrimaryRequest, Received, ReplicaError, ReplicaRequest, Request,
};
use spartan::push::{apply_builder, PushRequest};
use spartan::replica::{apply_range, ReplicaNode};
use spartan::storage::{ReplicatedDatabase, ReplicationStorage};
use spartan::tree::TreeDatabase;

fn now() -> i64 {
    chrono::Utc::now().timestamp()
}

fn hello() -> PushRequest {
    PushRequest { body: String::from("Hello, world"), offset: None, max_tries: None, timeout: None, delay: None }
}

fn message(body: &[u8]) -> Message {
    MessageBuilder::default().body(body).compose().unwrap()
}

fn body_of(frame: &[u8]) -> &[u8] {
    let n = frame_length(frame).unwrap() as usize;
    assert_eq!(frame.len(), 8 + n);
    &frame[8..]
}

#[test]
fn push_test_push() {
    let mut queue = ReplicatedDatabase::default();
    queue.push(apply_builder(&hello(), now()));
    let popped = queue.pop(now()).unwrap();
    assert_eq!(popped.body, b"Hello, world".to_vec());
    assert_eq!(popped.tries, 1);
    assert!(matches!(popped.state, MessageState::InTransit(_)));
    assert_eq!(queue.size(), 1);
}

#[test]
fn test_delayed_push() {
    let mut queue = ReplicatedDatabase::default();
    let t = now();
    queue.push(apply_builder(&PushRequest { delay: Some(900), ..hello() }, t));
    assert!(queue.pop(t).is_none());
    assert_eq!(queue.size(), 1);
}

#[test]
fn apply_builder_sets_attributes() {
    let r = PushRequest { body: String::from("b"), offset: Some(-2), max_tries: Some(4), timeout: Some(7), delay: Some(10) };
    let m = apply_builder(&r, 1000);
    assert_eq!((m.offset, m.max_tries, m.timeout, m.delay), (-2, 4, 7, Some(1010)));
    let m = apply_builder(&PushRequest { delay: Some(i64::MAX), ..hello() }, 5);
    assert_eq!(m.delay, Some(i64::MAX));
}

#[test]
fn test_gc() {
    let mut queue = ReplicatedDatabase::default();
    let mut message = MessageBuilder::default().body(b"Hello, world").max_tries(1).compose().unwrap();
    message.reserve(now());
    message.requeue();
    queue.push(message);
    assert_eq!(queue.size(), 1);
    queue.gc(now());
    assert_eq!(queue.size(), 0);
}

#[test]
fn scenario_pop_requeue_gc() {
    let mut queue = ReplicatedDatabase::default();
    let m = MessageBuilder::default().body(b"x").max_tries(1).compose().unwrap();
    let id = m.id;
    queue.push(m);
    let t = now();
    queue.pop(t).unwrap();
    assert!(queue.requeue(id).is_none());
    assert_eq!(queue.size(), 1);
    queue.gc(t);
    assert_eq!(queue.size(), 0);
}

#[test]
fn test_ping() {
    let sent = encode_frame(&Request::Primary(PrimaryRequest::Ping));
    assert!(matches!(decode_request(body_of(&sent)), Some(Request::Primary(PrimaryRequest::Ping))));
    assert!(ping_reply(Received::Frame(Request::Replica(ReplicaRequest::Pong))).is_ok());
}

#[test]
fn test_ask() {
    let sent = encode_frame(&Request::Primary(PrimaryRequest::AskIndex));
    assert!(matches!(decode_request(body_of(&sent)), Some(Request::Primary(PrimaryRequest::AskIndex))));
    let reply = Request::Replica(ReplicaRequest::RecvIndex(vec![(String::from("test"), 123)]));
    let bytes = encode_request(&reply);
    let back = decode_request(&bytes).unwrap();
    let pairs = index_reply(Received::Frame(back)).unwrap();
    assert_eq!(pairs, vec![(String::from("test"), 123)]);
}

#[test]
fn ping_answered_otherwise_is_a_mismatch() {
    assert_eq!(ping_reply(Received::Frame(Request::Replica(ReplicaRequest::RecvRange))), Err(PrimaryError::ProtocolMismatch));
    assert_eq!(ping_reply(Received::Frame(Request::Primary(PrimaryRequest::Ping))), Err(PrimaryError::ProtocolMismatch));
    assert_eq!(ping_reply(Received::Closed), Err(PrimaryError::EmptySocket));
    assert_eq!(ping_reply(Received::Malformed), Err(PrimaryError::CodecError));
    assert_eq!(PrimaryError::ProtocolMismatch.message(), "Protocol mismatch");
}

#[test]
fn range_answers() {
    let q = String::from("q");
    assert_eq!(range_reply(&q, Received::Frame(Request::Replica(ReplicaRequest::RecvRange))), Ok(true));
    assert_eq!(range_reply(&q, Received::Frame(Request::Replica(ReplicaRequest::QueueNotFound(q.clone())))), Ok(false));
    assert_eq!(range_reply(&q, Received::Frame(Request::Replica(ReplicaRequest::Pong))), Err(PrimaryError::ProtocolMismatch));
    let sent = PrimaryRequest::AskIndex;
    assert!(check_response(&sent, Received::Frame(Request::Replica(ReplicaRequest::RecvRange))).is_err());
}

#[test]
fn frames_round_trip() {
    let e = vec![(3u64, Event::Push(message(b"abc"))), (4, Event::Pop(9)), (5, Event::Requeue(1)), (6, Event::Delete(2)), (7, Event::Gc(-4)), (8, Event::Clear)];
    let req = Request::Primary(PrimaryRequest::SendRange(String::from("qué"), e));
    let bytes = encode_request(&req);
    assert_eq!(&bytes[..2], &[0u8, 2u8]);
    match decode_request(&bytes).unwrap() {
        Request::Primary(PrimaryRequest::SendRange(name, range)) => {
            assert_eq!(name, "qué");
            assert_eq!(range.len(), 6);
            assert_eq!(range[0].0, 3);
            assert!(matches!(range[3].1, Event::Delete(2)));
            assert!(matches!(range[4].1, Event::Gc(-4)));
            assert!(matches!(range[5].1, Event::Clear));
        },
        _ => panic!("wrong request"),
    }
    let nf = encode_request(&Request::Replica(ReplicaRequest::QueueNotFound(String::from("z"))));
    assert!(matches!(decode_request(&nf), Some(Request::Replica(ReplicaRequest::QueueNotFound(_)))));
    assert!(decode_request(&[1, 9]).is_none());
    assert!(decode_request(&[0]).is_none());
    assert!(decode_request(&[0, 0, 0]).is_none());
}

#[test]
fn wire_format_is_little_endian() {
    let bytes = encode_log_record(&Event::Pop(1));
    assert_eq!(bytes, vec![9, 0, 0, 0, 0, 0, 0, 0, 1, 1, 0, 0, 0, 0, 0, 0, 0]);
}

fn primary_with_events() -> ReplicatedDatabase {
    let mut primary = ReplicatedDatabase::default();
    primary.prepare_replication(|_| false, ReplicationStorage::new);
    let a = message(b"a");
    let a_id = a.id;
    primary.push(a);
    primary.push(message(b"b"));
    primary.pop(100).unwrap();
    primary.requeue(a_id);
    primary.push(message(b"c"));
    primary
}

#[test]
fn replication_catch_up() {
    let mut primary = primary_with_events();
    let storage: &ReplicationStorage = primary.storage().as_ref().unwrap();
    assert_eq!(storage.next_index(), 6);
    let range = primary.range_above(2);
    assert_eq!(range.iter().map(|e| e.0).collect::<Vec<_>>(), vec![3, 4, 5]);

    let mut replica = ReplicaNode::new();
    replica.add(String::from("q"));
    let upto_two = primary.range_above(0);
    replica.respond(PrimaryRequest::SendRange(String::from("q"), upto_two[..2].iter().map(|(i, e)| (*i, e.duplicate())).collect()));
    match replica.respond(PrimaryRequest::AskIndex) {
        ReplicaRequest::RecvIndex(pairs) => assert_eq!(pairs, vec![(String::from("q"), 2)]),
        _ => panic!("expected indices"),
    }
    let answer = replica.respond(PrimaryRequest::SendRange(String::from("q"), range));
    assert!(matches!(answer, ReplicaRequest::RecvRange));
    primary.confirm_range(&vec![]);
    assert_eq!(primary.storage().as_ref().unwrap().gc_threshold(), 0);
    primary.confirm_range(&primary.range_above(2));
    assert_eq!(primary.storage().as_ref().unwrap().gc_threshold(), 5);
    assert!(primary.range_above(0).is_empty());
    match replica.respond(PrimaryRequest::AskIndex) {
        ReplicaRequest::RecvIndex(pairs) => assert_eq!(pairs, vec![(String::from("q"), 5)]),
        _ => panic!("expected indices"),
    }
    assert!(matches!(replica.respond(PrimaryRequest::Ping), ReplicaRequest::Pong));
    assert!(matches!(replica.respond(PrimaryRequest::SendRange(String::from("nope"), vec![])), ReplicaRequest::QueueNotFound(_)));
}

#[test]
fn replica_reaches_primary_state() {
    let primary = primary_with_events();
    let mut db = TreeDatabase::new();
    let last = apply_range(&mut db, 0, &primary.range_above(0));
    assert_eq!(last, 5);
    let p = primary.database();
    assert_eq!(db.len(), p.len());
    for k in 0..db.len() {
        let (s1, m1) = db.item_at(k);
        let (s2, m2) = p.item_at(k);
        assert_eq!((s1, m1.id, m1.tries, m1.state), (s2, m2.id, m2.tries, m2.state));
    }
    let again = apply_range(&mut db, last, &primary.range_above(0));
    assert_eq!(again, 5);
    assert_eq!(db.len(), p.len());
}

#[test]
fn without_storage_nothing_is_recorded() {
    let mut queue = ReplicatedDatabase::default();
    queue.push(message(b"a"));
    assert!(queue.storage().is_none());
    assert!(queue.range_above(0).is_empty());
}

#[test]
fn log_replay_rebuilds_queue() {
    let a = message(b"a");
    let b = message(b"b");
    let events = vec![Event::Push(a.duplicate()), Event::Push(b.duplicate()), Event::Pop(10), Event::Delete(b.id), Event::Gc(11), Event::Requeue(a.id)];
    let mut file = Vec::new();
    for e in &events {
        file.extend(encode_log_record(e));
    }
    assert_eq!(decode_log(&file).unwrap().len(), 6);
    let db = load_log(&file).unwrap();
    assert_eq!(db.len(), 0);
    let db = load_log(&file[..file.len() - 17 - 25]).unwrap();
    assert_eq!(db.len(), 1);
    assert!(load_log(&file[..file.len() - 1]).is_none());
    assert!(load_log(&[]).unwrap().is_empty());
}

#[test]
fn access_rules() {
    let keys = vec![AccessKey { key: String::from("k1"), queues: vec![String::from("a"), String::from("b")] }];
    let m = Access::new(Some(keys)).new_transform(());
    assert!(m.has_access_keys());
    assert!(m.check_access("k1", "b"));
    assert!(!m.check_access("k1", "c"));
    assert!(!m.check_access("k2", "a"));
    assert_eq!(m.parse_request(Some("a"), KeyHeader::Value("k1")), Ok(()));
    assert_eq!(m.parse_request(Some("c"), KeyHeader::Value("k1")), Err(AccessError::AccessDenied));
    assert_eq!(m.parse_request(Some("a"), KeyHeader::Missing), Err(AccessError::AuthorizationHeaderNotFound));
    assert_eq!(m.parse_request(Some("a"), KeyHeader::Unreadable), Err(AccessError::IncorrectKeyHeader));
    assert_eq!(m.parse_request(None, KeyHeader::Missing), Ok(()));
    assert_eq!(AccessError::AccessDenied.status_code(), 401);
    assert_eq!(AccessError::IncorrectKeyHeader.status_code(), 400);
    let open = Access::new(None).new_transform(());
    assert!(!open.has_access_keys());
    assert_eq!(open.parse_request(Some("a"), KeyHeader::Missing), Ok(()));
    assert_eq!(ManagerError::QueueNotFound.status_code(), 404);
}

#[test]
fn replica_reads_primary_frames() {
    assert!(matches!(expect_primary(Received::Closed), Ok(None)));
    assert!(matches!(expect_primary(Received::Malformed), Err(ReplicaError::CodecError)));
    assert!(matches!(expect_primary(Received::Frame(Request::Primary(PrimaryRequest::Ping))), Ok(Some(PrimaryRequest::Ping))));
    assert!(matches!(
        expect_primary(Received::Frame(Request::Replica(ReplicaRequest::Pong))),
        Err(ReplicaError::ProtocolMismatch)
    ));
}

#[test]
fn confirm_keeps_the_threshold_below_the_next_index() {
    let mut primary = primary_with_events();
    primary.confirm(100);
    let storage = primary.storage().as_ref().unwrap();
    assert_eq!(storage.gc_threshold(), 5);
    assert_eq!(storage.next_index(), 6);
    primary.confirm(1);
    assert_eq!(primary.storage().as_ref().unwrap().gc_threshold(), 5);
}

#[test]
fn accepted_log_is_kept() {
    let mut primary = primary_with_events();
    primary.prepare_replication(|_| true, ReplicationStorage::new);
    assert_eq!(primary.storage().as_ref().unwrap().next_index(), 6);
    assert_eq!(primary.range_above(0).len(), 5);
    primary.prepare_replication(|s| s.next_index() > 100, ReplicationStorage::new);
    assert_eq!(primary.storage().as_ref().unwrap().next_index(), 1);
    assert!(primary.range_above(0).is_empty());
    assert_eq!(primary.size(), 3);
}

#[test]
fn finishing_a_range_compacts_on_acknowledgement() {
    let mut primary = primary_with_events();
    let q = String::from("q");
    let shipped = primary.range_above(2);
    let lost = primary.finish_range(&q, &shipped, Received::Frame(Request::Replica(ReplicaRequest::QueueNotFound(q.clone()))));
    assert_eq!(lost, Ok(false));
    assert_eq!(primary.storage().as_ref().unwrap().gc_threshold(), 0);
    let bad = primary.finish_range(&q, &shipped, Received::Frame(Request::Replica(ReplicaRequest::Pong)));
    assert_eq!(bad, Err(PrimaryError::ProtocolMismatch));
    assert_eq!(primary.storage().as_ref().unwrap().gc_threshold(), 0);
    let ok = primary.finish_range(&q, &shipped, Received::Frame(Request::Replica(ReplicaRequest::RecvRange)));
    assert_eq!(ok, Ok(true));
    assert_eq!(primary.storage().as_ref().unwrap().gc_threshold(), 5);
    assert_eq!(primary.storage().as_ref().unwrap().next_index(), 6);
}
