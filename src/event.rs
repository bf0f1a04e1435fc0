use vstd::prelude::*;
use crate::message::{Message, MessageView};
use crate::tree::{
    gc_keep, has_id, insert_sorted, pop_items, requeue_items, select, without, Item, QueueView, TreeDatabase,
};

verus! {

/// A mutation of a queue, as recorded for replication and the event log.
///
/// Pops and collections carry the epoch second they happened at, so that a
/// replay reaches the same state.
#[derive(Clone, Debug)]
pub enum Event {
    Push(Message),
    Pop(i64),
    Requeue(u128),
    Delete(u128),
    Gc(i64),
    Clear,
}

/// What an event holds, as values.
pub enum EventView {
    Push(MessageView),
    Pop(i64),
    Requeue(u128),
    Delete(u128),
    Gc(i64),
    Clear,
}

impl View for Event {
    type V = EventView;

    open spec fn view(&self) -> EventView {
        match self {
            Event::Push(m) => EventView::Push(m@),
            Event::Pop(t) => EventView::Pop(*t),
            Event::Requeue(id) => EventView::Requeue(*id),
            Event::Delete(id) => EventView::Delete(*id),
            Event::Gc(t) => EventView::Gc(*t),
            Event::Clear => EventView::Clear,
        }
    }
}

impl Event {
    /// An equal event, message body included.
    pub fn duplicate(&self) -> (r: Event)
        ensures
            r@ == self@,
    {
        match self {
            Event::Push(m) => Event::Push(m.duplicate()),
            Event::Pop(t) => Event::Pop(*t),
            Event::Requeue(id) => Event::Requeue(*id),
            Event::Delete(id) => Event::Delete(*id),
            Event::Gc(t) => Event::Gc(*t),
            Event::Clear => Event::Clear,
        }
    }
}

/// The queue after one event. A push on an exhausted sequence counter
/// changes nothing.
pub open spec fn step(q: QueueView, e: EventView) -> QueueView {
    match e {
        EventView::Push(m) => if q.next_seq < u64::MAX {
            QueueView {
                next_seq: (q.next_seq + 1) as u64,
                items: insert_sorted(without(q.items, m.id), (q.next_seq, m)),
            }
        } else {
            q
        },
        EventView::Pop(now) => QueueView { items: pop_items(q.items, now), ..q },
        EventView::Requeue(id) => QueueView { items: requeue_items(q.items, id), ..q },
        EventView::Delete(id) => QueueView { items: without(q.items, id), ..q },
        EventView::Gc(now) => QueueView { items: select(q.items, gc_keep(q.items, now)), ..q },
        EventView::Clear => QueueView { items: Seq::empty(), ..q },
    }
}

/// The queue after the events, in order.
pub open spec fn replay(q: QueueView, events: Seq<EventView>) -> QueueView
    decreases events.len(),
{
    if events.len() == 0 {
        q
    } else {
        step(replay(q, events.drop_last()), events.last())
    }
}

/// How many items garbage collection at `now` removes.
pub open spec fn garbage_count(items: Seq<Item>, now: i64) -> int
    decreases items.len(),
{
    if items.len() == 0 {
        0
    } else {
        garbage_count(items.drop_last(), now) + if items.last().1.garbage(now) {
            1int
        } else {
            0int
        }
    }
}

/// How one event changes the number of messages: a push of a new id adds
/// one, a delete of a present id removes one, a collection removes the
/// garbage, a clear removes all, and pops and requeues change nothing.
pub open spec fn size_change(q: QueueView, e: EventView) -> int {
    match e {
        EventView::Push(m) => if q.next_seq < u64::MAX && !has_id(q.items, m.id) {
            1
        } else {
            0
        },
        EventView::Delete(id) => if has_id(q.items, id) {
            -1
        } else {
            0
        },
        EventView::Gc(now) => -garbage_count(q.items, now),
        EventView::Clear => -q.items.len(),
        _ => 0,
    }
}

/// The summed changes of a sequence of events.
pub open spec fn total_change(q: QueueView, events: Seq<EventView>) -> int
    decreases events.len(),
{
    if events.len() == 0 {
        0
    } else {
        total_change(q, events.drop_last()) + size_change(replay(q, events.drop_last()), events.last())
    }
}

proof fn lemma_insert_sorted_len(items: Seq<Item>, x: Item)
    ensures
        insert_sorted(items, x).len() == items.len() + 1,
    decreases items.len(),
{
    if items.len() > 0 {
        lemma_insert_sorted_len(items.drop_last(), x);
    }
}

proof fn lemma_gc_len(items: Seq<Item>, now: i64)
    ensures
        select(items, gc_keep(items, now)).len() == items.len() - garbage_count(items, now),
    decreases items.len(),
{
    if items.len() > 0 {
        assert(gc_keep(items, now).drop_last() =~= gc_keep(items.drop_last(), now));
        lemma_gc_len(items.drop_last(), now);
    }
}

/// The number of messages after an event is the number before plus the
/// event's change.
pub proof fn lemma_size_step(q: QueueView, e: EventView)
    ensures
        step(q, e).items.len() == q.items.len() + size_change(q, e),
{
    match e {
        EventView::Push(m) => {
            if has_id(q.items, m.id) {
                let j = crate::tree::pos_of(q.items, m.id);
                assert(0 <= j < q.items.len());
            }
            if q.next_seq < u64::MAX {
                lemma_insert_sorted_len(without(q.items, m.id), (q.next_seq, m));
            }
        },
        EventView::Gc(now) => {
            lemma_gc_len(q.items, now);
        },
        EventView::Pop(now) => {
            if !crate::tree::none_obtainable(q.items, now) {
                crate::tree::lemma_pop_reserves(q.items, now);
            }
        },
        EventView::Requeue(id) => {
            if has_id(q.items, id) {
                let j = crate::tree::pos_of(q.items, id);
                assert(0 <= j < q.items.len());
            }
        },
        EventView::Delete(id) => {
            if has_id(q.items, id) {
                let j = crate::tree::pos_of(q.items, id);
                assert(0 <= j < q.items.len());
            }
        },
        _ => {},
    }
}

/// Over any sequence of operations, the number of messages is the number
/// at the start plus the pushes of new ids, minus the deletes of present
/// ids, the collected garbage and what clears removed.
pub proof fn lemma_size_replay(q: QueueView, events: Seq<EventView>)
    ensures
        replay(q, events).items.len() == q.items.len() + total_change(q, events),
    decreases events.len(),
{
    if events.len() > 0 {
        lemma_size_replay(q, events.drop_last());
        lemma_size_step(replay(q, events.drop_last()), events.last());
    }
}

impl TreeDatabase {
    /// Applies one recorded event.
    pub fn apply(&mut self, event: Event)
        requires
            old(self).wf(),
        ensures
            final(self).wf(),
            final(self).state() == step(old(self).state(), event@),
    {
        match event {
            Event::Push(m) => {
                if self.can_push() {
                    self.push_raw(m);
                }
            },
            Event::Pop(now) => {
                let _ = self.pop(now);
            },
            Event::Requeue(id) => {
                let _ = self.requeue(id);
            },
            Event::Delete(id) => {
                let _ = self.delete(id);
            },
            Event::Gc(now) => {
                self.gc(now);
            },
            Event::Clear => {
                self.clear();
            },
        }
    }
}

} // verus!
