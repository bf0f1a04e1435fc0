use vstd::prelude::*;
use crate::codec::{
    concat_enc, get_message, get_u64, holds_at, lemma_concat_append, lemma_concat_at, lemma_concat_len,
    lemma_holds_concat, list_enc,
    message_enc, put_message, put_u64, u64_le,
};
use crate::codec::{bytes_enc, event_enc, get_bytes, get_event, put_bytes, put_event};
use crate::event::{replay, Event, EventView};
use crate::message::Message;
use crate::tree::{items_view, valid_queue, Item, QueueView, TreeDatabase};

verus! {

pub open spec fn item_enc() -> spec_fn(Item) -> Seq<u8> {
    |it: Item| u64_le(it.0) + message_enc(it.1)
}

/// A queue snapshot: the next sequence number, then the items in queue order.
pub open spec fn snapshot_enc(q: QueueView) -> Seq<u8> {
    u64_le(q.next_seq) + list_enc(q.items, item_enc())
}

/// The snapshot of a queue.
pub fn encode_queue(db: &TreeDatabase) -> (r: Vec<u8>)
    requires
        db.wf(),
    ensures
        r@ == snapshot_enc(db.state()),
{
    let mut out: Vec<u8> = Vec::new();
    put_u64(&mut out, db.next_seq_now());
    let n = db.len();
    put_u64(&mut out, n as u64);
    let ghost start = out@;
    let ghost all = db.items();
    let mut i: usize = 0;
    while i < n
        invariant
            db.wf(),
            n == all.len(),
            all == db.items(),
            i <= n,
            out@ == start + concat_enc(all.take(i as int), item_enc()),
        decreases n - i,
    {
        let (seq, m) = db.item_at(i);
        put_u64(&mut out, seq);
        put_message(&mut out, m);
        proof {
            assert(all.take(i + 1).drop_last() =~= all.take(i as int));
            assert(out@ =~= start + concat_enc(all.take(i + 1), item_enc()));
        }
        i = i + 1;
    }
    assert(all.take(all.len() as int) =~= all);
    assert(out@ =~= snapshot_enc(db.state()));
    out
}

/// Reads a list of sequence numbers and messages at `pos`, with the position after it.
pub fn get_items(buf: &[u8], pos: usize) -> (r: Option<(Vec<(u64, Message)>, usize)>)
    ensures
        r is Some ==> holds_at(buf@, pos as int, list_enc(items_view((r->0).0@), item_enc())) && (r->0).1 == pos
            + list_enc(items_view((r->0).0@), item_enc()).len(),
        forall|v: Seq<Item>| #[trigger] holds_at(buf@, pos as int, list_enc(v, item_enc())) ==> r is Some
            && items_view((r->0).0@) == v && (r->0).1 == pos + list_enc(v, item_enc()).len(),
{
    let _ = buf.len();
    let n = match get_u64(buf, pos) {
        Some(n) => n,
        None => {
            proof {
                assert forall|v: Seq<Item>| !#[trigger] holds_at(buf@, pos as int, list_enc(v, item_enc())) by {
                    lemma_holds_concat(buf@, pos as int, u64_le(v.len() as u64), concat_enc(v, item_enc()));
                }
            }
            return None;
        },
    };
    let start = pos + 8;
    let ghost f = item_enc();
    proof {
        assert forall|v: Seq<Item>| #[trigger] holds_at(buf@, pos as int, list_enc(v, f)) implies v.len() == n
            && holds_at(buf@, start as int, concat_enc(v, f)) by {
            lemma_holds_concat(buf@, pos as int, u64_le(v.len() as u64), concat_enc(v, f));
            assert forall|x: Item| #[trigger] f(x).len() >= 1 by {
                assert(u64_le(x.0).len() == 8);
            }
            lemma_concat_len(v, f);
            assert(v.len() <= buf@.len());
        }
    }
    let mut out: Vec<(u64, Message)> = Vec::new();
    let mut p: usize = start;
    let mut i: u64 = 0;
    assert(concat_enc(items_view(out@), f) =~= Seq::<u8>::empty());
    assert(buf@.subrange(start as int, start as int) =~= Seq::<u8>::empty());
    while i < n
        invariant
            i <= n,
            out@.len() == i,
            buf@.len() <= usize::MAX,
            start == pos + 8,
            holds_at(buf@, start as int, concat_enc(items_view(out@), f)),
            p == start + concat_enc(items_view(out@), f).len(),
            f == item_enc(),
            forall|v: Seq<Item>| #[trigger] holds_at(buf@, pos as int, list_enc(v, f)) ==> v.len() == n && holds_at(
                buf@,
                start as int,
                concat_enc(v, f),
            ),
            forall|v: Seq<Item>| #[trigger] holds_at(buf@, pos as int, list_enc(v, f)) ==> items_view(out@)
                == v.take(i as int),
        decreases n - i,
    {
        let ghost before = items_view(out@);
        proof {
            assert forall|v: Seq<Item>| #[trigger] holds_at(buf@, pos as int, list_enc(v, f)) implies holds_at(
                buf@,
                p as int,
                u64_le(v[i as int].0) + message_enc(v[i as int].1),
            ) by {
                lemma_concat_at(buf@, start as int, v, f, i as int);
            }
        }
        let idx = match get_u64(buf, p) {
            Some(x) => x,
            None => {
                proof {
                    assert forall|v: Seq<Item>| !#[trigger] holds_at(buf@, pos as int, list_enc(v, f)) by {
                        if holds_at(buf@, pos as int, list_enc(v, f)) {
                            lemma_holds_concat(buf@, p as int, u64_le(v[i as int].0), message_enc(v[i as int].1));
                        }
                    }
                }
                return None;
            },
        };
        let (e, q) = match get_message(buf, p + 8) {
            Some(x) => x,
            None => {
                proof {
                    assert forall|v: Seq<Item>| !#[trigger] holds_at(buf@, pos as int, list_enc(v, f)) by {
                        if holds_at(buf@, pos as int, list_enc(v, f)) {
                            lemma_holds_concat(buf@, p as int, u64_le(v[i as int].0), message_enc(v[i as int].1));
                        }
                    }
                }
                return None;
            },
        };
        let ghost item: Item = (idx, e@);
        out.push((idx, e));
        proof {
            assert(items_view(out@) =~= before.push(item));
            assert(before.push(item).drop_last() =~= before);
            lemma_holds_concat(buf@, p as int, u64_le(idx), message_enc(e@));
            lemma_holds_concat(buf@, start as int, concat_enc(before, f), f(item));
            assert forall|v: Seq<Item>| #[trigger] holds_at(buf@, pos as int, list_enc(v, f)) implies items_view(out@)
                == v.take(i + 1) by {
                lemma_holds_concat(buf@, p as int, u64_le(v[i as int].0), message_enc(v[i as int].1));
                assert(v.take(i + 1) =~= v.take(i as int).push(v[i as int]));
            }
        }
        p = q;
        i = i + 1;
    }
    proof {
        lemma_holds_concat(buf@, pos as int, u64_le(n), concat_enc(items_view(out@), f));
        assert forall|v: Seq<Item>| #[trigger] holds_at(buf@, pos as int, list_enc(v, f)) implies items_view(out@)
            == v by {
            assert(v.take(n as int) =~= v);
        }
    }
    Some((out, p))
}


/// The sequence counter and the items that `buf` holds, when it is exactly
/// a snapshot.
fn decode_snapshot_parts(buf: &[u8]) -> (r: Option<(u64, Vec<(u64, Message)>)>)
    ensures
        r is Some ==> buf@ == snapshot_enc(QueueView { next_seq: (r->0).0, items: items_view((r->0).1@) }),
        forall|q: QueueView| buf@ == #[trigger] snapshot_enc(q) ==> r is Some && (r->0).0 == q.next_seq
            && items_view((r->0).1@) == q.items,
{
    proof {
        assert forall|q: QueueView| buf@ == #[trigger] snapshot_enc(q) implies holds_at(buf@, 0, snapshot_enc(q)) && holds_at(
            buf@,
            0,
            u64_le(q.next_seq),
        ) && holds_at(buf@, 8, list_enc(q.items, item_enc())) by {
            assert(buf@.subrange(0, buf@.len() as int) =~= buf@);
            lemma_holds_concat(buf@, 0, u64_le(q.next_seq), list_enc(q.items, item_enc()));
        }
    }
    let _ = buf.len();
    let next_seq = match get_u64(buf, 0) {
        Some(x) => x,
        None => {
            return None;
        },
    };
    let (items, end) = match get_items(buf, 8) {
        Some(x) => x,
        None => {
            return None;
        },
    };
    if end != buf.len() {
        return None;
    }
    proof {
        lemma_holds_concat(buf@, 0, u64_le(next_seq), list_enc(items_view(items@), item_enc()));
        assert(buf@ =~= snapshot_enc(QueueView { next_seq, items: items_view(items@) }));
    }
    Some((next_seq, items))
}

/// The queue a snapshot describes; `None` unless `buf` is exactly the
/// snapshot of a valid queue state. Decoding the snapshot of any
/// well-formed queue gives a queue in the same state.
pub fn decode_queue(buf: &[u8]) -> (r: Option<TreeDatabase>)
    ensures
        r is Some ==> r->0.wf() && buf@ == snapshot_enc(r->0.state()),
        forall|q: QueueView| valid_queue(q) && buf@ == #[trigger] snapshot_enc(q) ==> r is Some && r->0.state() == q,
        forall|db: TreeDatabase| db.wf() && buf@ == #[trigger] snapshot_enc(db.state()) ==> r is Some && r->0.state()
            == db.state(),
{
    proof {
        assert forall|db: TreeDatabase| db.wf() implies #[trigger] valid_queue(db.state()) by {
            db.lemma_items();
        }
    }
    match decode_snapshot_parts(buf) {
        None => None,
        Some((next_seq, items)) => TreeDatabase::restore(next_seq, &items),
    }
}

/// One record of a log file: an encoded event behind its length.
pub open spec fn record_enc() -> spec_fn(EventView) -> Seq<u8> {
    |e: EventView| bytes_enc(event_enc(e))
}

pub open spec fn events_view(v: Seq<Event>) -> Seq<EventView> {
    v.map_values(|e: Event| e@)
}

/// The record that appends `event` to a log file.
pub fn encode_log_record(event: &Event) -> (r: Vec<u8>)
    ensures
        r@ == bytes_enc(event_enc(event@)),
{
    let mut body: Vec<u8> = Vec::new();
    put_event(&mut body, event);
    let mut out: Vec<u8> = Vec::new();
    put_bytes(&mut out, body.as_slice());
    assert(body@ =~= event_enc(event@));
    out
}

/// The event a record's body holds, when it holds exactly one.
fn decode_record_body(body: &[u8]) -> (r: Option<Event>)
    ensures
        r is Some ==> body@ == event_enc(r->0@),
        forall|e: EventView| body@ == #[trigger] event_enc(e) ==> r is Some && r->0@ == e,
{
    proof {
        assert forall|e: EventView| body@ == #[trigger] event_enc(e) implies holds_at(body@, 0, event_enc(e)) by {
            assert(body@.subrange(0, body@.len() as int) =~= body@);
        }
    }
    match get_event(body, 0) {
        Some((e, end)) => {
            if end == body.len() {
                assert(body@ =~= body@.subrange(0, end as int));
                Some(e)
            } else {
                None
            }
        },
        None => None,
    }
}

/// The events of a log file, in order; `None` unless the file is a
/// sequence of whole records.
pub fn decode_log(buf: &[u8]) -> (r: Option<Vec<Event>>)
    ensures
        r is Some ==> buf@ == concat_enc(events_view(r->0@), record_enc()),
        forall|es: Seq<EventView>| buf@ == #[trigger] concat_enc(es, record_enc()) ==> r is Some && events_view(r->0@)
            == es,
{
    let ghost f = record_enc();
    let mut out: Vec<Event> = Vec::new();
    let mut p: usize = 0;
    let _ = buf.len();
    assert(concat_enc(events_view(out@), f) =~= Seq::<u8>::empty());
    assert(buf@.subrange(0, 0) =~= Seq::<u8>::empty());
    proof {
        assert forall|x: EventView| #[trigger] f(x).len() >= 1 by {
            assert(u64_le(event_enc(x).len() as u64).len() == 8);
        }
    }
    while p < buf.len()
        invariant
            p <= buf@.len(),
            buf@.len() <= usize::MAX,
            f == record_enc(),
            forall|x: EventView| #[trigger] f(x).len() >= 1,
            holds_at(buf@, 0, concat_enc(events_view(out@), f)),
            p == concat_enc(events_view(out@), f).len(),
            forall|es: Seq<EventView>| buf@ == #[trigger] concat_enc(es, f) ==> out@.len() <= es.len() && events_view(out@)
                == es.take(out@.len() as int),
        decreases buf@.len() - p,
    {
        let ghost before = events_view(out@);
        let ghost k = out@.len() as int;
        proof {
            assert forall|es: Seq<EventView>| buf@ == #[trigger] concat_enc(es, f) implies k < es.len() && holds_at(
                buf@,
                p as int,
                bytes_enc(event_enc(es[k])),
            ) by {
                assert(buf@.subrange(0, buf@.len() as int) =~= buf@);
                if k == es.len() {
                    assert(es.take(k) =~= es);
                }
                lemma_concat_at(buf@, 0, es, f, k);
            }
        }
        let (body, q) = match get_bytes(buf, p) {
            Some(x) => x,
            None => {
                return None;
            },
        };
        let e = match decode_record_body(body.as_slice()) {
            Some(e) => e,
            None => {
                return None;
            },
        };
        out.push(e);
        proof {
            assert(events_view(out@) =~= before.push(e@));
            assert(before.push(e@).drop_last() =~= before);
            lemma_holds_concat(buf@, 0, concat_enc(before, f), f(e@));
            assert forall|es: Seq<EventView>| buf@ == #[trigger] concat_enc(es, f) implies out@.len() <= es.len()
                && events_view(out@) == es.take(out@.len() as int) by {
                assert(es.take(k + 1) =~= es.take(k).push(es[k]));
            }
        }
        p = q;
    }
    proof {
        assert(buf@ =~= buf@.subrange(0, p as int));
        assert forall|es: Seq<EventView>| buf@ == #[trigger] concat_enc(es, f) implies events_view(out@) == es by {
            let k = out@.len() as int;
            if k < es.len() {
                lemma_concat_append(es.take(k), es.skip(k), f);
                assert(es.take(k) + es.skip(k) =~= es);
                lemma_concat_len(es.skip(k), f);
            }
            assert(es.take(k) =~= es);
        }
    }
    Some(out)
}

/// The queue a log file rebuilds: its events replayed, in order, on an
/// empty queue.
pub fn load_log(buf: &[u8]) -> (r: Option<TreeDatabase>)
    ensures
        r is Some ==> r->0.wf() && exists|es: Seq<EventView>|
            buf@ == concat_enc(es, record_enc()) && r->0.state() == replay(
                QueueView { next_seq: 0, items: Seq::empty() },
                es,
            ),
        forall|es: Seq<EventView>| buf@ == #[trigger] concat_enc(es, record_enc()) ==> r is Some && r->0.state()
            == replay(QueueView { next_seq: 0, items: Seq::empty() }, es),
{
    let events = match decode_log(buf) {
        Some(v) => v,
        None => {
            return None;
        },
    };
    let ghost all = events_view(events@);
    let ghost empty = QueueView { next_seq: 0, items: Seq::empty() };
    let mut db = TreeDatabase::new();
    let mut i: usize = 0;
    assert(all.take(0) =~= Seq::<EventView>::empty());
    while i < events.len()
        invariant
            i <= events@.len(),
            all == events_view(events@),
            db.wf(),
            db.state() == replay(empty, all.take(i as int)),
        decreases events@.len() - i,
    {
        let e = events[i].duplicate();
        db.apply(e);
        proof {
            assert(all.take(i + 1).drop_last() =~= all.take(i as int));
        }
        i = i + 1;
    }
    assert(all.take(all.len() as int) =~= all);
    Some(db)
}

} // verus!
