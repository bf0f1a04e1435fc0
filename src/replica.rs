use vstd::prelude::*;
use crate::event::{replay, step, Event, EventView};
use crate::storage::{entries_above, entries_view, events_of, LogEntry, ReplicatedDatabase};
use crate::tree::{QueueView, TreeDatabase};
use crate::codec::{names_view, str_eq};
use crate::protocol::{PrimaryRequest, PrimaryView, ReplicaRequest, ReplicaView};

verus! {

/// A replica's queue and its last applied index after applying `entries` in
/// order; an entry at or below the last applied index is skipped.
pub open spec fn apply_entries(q: QueueView, last: u64, entries: Seq<LogEntry>) -> (QueueView, u64)
    decreases entries.len(),
{
    if entries.len() == 0 {
        (q, last)
    } else if entries[0].0 > last {
        apply_entries(step(q, entries[0].1), entries[0].0, entries.drop_first())
    } else {
        apply_entries(q, last, entries.drop_first())
    }
}

/// Applies a shipped range to a replica's queue and returns the new last
/// applied index.
pub fn apply_range(db: &mut TreeDatabase, last_applied: u64, range: &Vec<(u64, Event)>) -> (r: u64)
    requires
        old(db).wf(),
    ensures
        final(db).wf(),
        (final(db).state(), r) == apply_entries(old(db).state(), last_applied, entries_view(range@)),
{
    let ghost all = entries_view(range@);
    let ghost start = db.state();
    let mut last = last_applied;
    let mut i: usize = 0;
    assert(all.subrange(0, all.len() as int) =~= all);
    while i < range.len()
        invariant
            db.wf(),
            i <= range@.len(),
            all == entries_view(range@),
            apply_entries(db.state(), last, all.subrange(i as int, all.len() as int)) == apply_entries(
                start,
                last_applied,
                all,
            ),
        decreases range@.len() - i,
    {
        let ghost rest = all.subrange(i as int, all.len() as int);
        let ghost q0 = db.state();
        let ghost l0 = last;
        assert(rest.drop_first() =~= all.subrange(i + 1, all.len() as int));
        assert(rest[0] == all[i as int]);
        assert(all[i as int] == (range@[i as int].0, range@[i as int].1@));
        assert(apply_entries(q0, l0, rest) == if rest[0].0 > l0 {
            apply_entries(step(q0, rest[0].1), rest[0].0, rest.drop_first())
        } else {
            apply_entries(q0, l0, rest.drop_first())
        });
        let index = range[i].0;
        if index > last {
            let e = range[i].1.duplicate();
            db.apply(e);
            last = index;
        }
        i = i + 1;
    }
    assert(all.subrange(0, all.len() as int) =~= all);
    last
}

proof fn lemma_replay_prepend(q: QueueView, e: EventView, rest: Seq<EventView>)
    ensures
        replay(step(q, e), rest) == replay(q, seq![e] + rest),
    decreases rest.len(),
{
    let all = seq![e] + rest;
    if rest.len() == 0 {
        assert(all.drop_last() =~= Seq::<EventView>::empty());
        assert(all.last() == e);
        assert(replay(q, all.drop_last()) == q);
    } else {
        lemma_replay_prepend(q, e, rest.drop_last());
        assert(all.drop_last() =~= seq![e] + rest.drop_last());
        assert(all.last() == rest.last());
    }
}

/// Entries whose indices follow `last` one by one are all applied: the queue
/// ends at the replay of their events, and the last index at theirs.
pub proof fn lemma_apply_consecutive(q: QueueView, last: u64, entries: Seq<LogEntry>)
    requires
        last + entries.len() <= u64::MAX,
        forall|i: int| 0 <= i < entries.len() ==> (#[trigger] entries[i]).0 == last + 1 + i,
    ensures
        apply_entries(q, last, entries) == (replay(q, events_of(entries)), (last + entries.len()) as u64),
    decreases entries.len(),
{
    if entries.len() == 0 {
        assert(events_of(entries) =~= Seq::<EventView>::empty());
    } else {
        let rest = entries.drop_first();
        assert forall|i: int| 0 <= i < rest.len() implies (#[trigger] rest[i]).0 == (last + 1) + 1 + i by {
            assert(rest[i] == entries[i + 1]);
        }
        lemma_apply_consecutive(step(q, entries[0].1), (last + 1) as u64, rest);
        lemma_replay_prepend(q, entries[0].1, events_of(rest));
        assert(seq![entries[0].1] + events_of(rest) =~= events_of(entries));
    }
}

/// A replica that holds the primary's state at index `k` and applies what
/// the primary ships above `k` reaches the primary's current state, and its
/// last applied index becomes the primary's last index.
pub proof fn lemma_catch_up(primary: &ReplicatedDatabase, k: u64)
    requires
        primary.wf(),
        primary.storage_view() is Some,
        primary.first_replayable() <= k < primary.storage_view()->0.next_index,
    ensures
        apply_entries(primary.state_at(k), k, entries_above(primary.storage_view()->0, k)) == (
            primary.queue(),
            (primary.storage_view()->0.next_index - 1) as u64,
        ),
{
    let s = primary.storage_view()->0;
    let es = entries_above(s, k);
    primary.lemma_log_replay(k);
    assert forall|i: int| 0 <= i < es.len() implies (#[trigger] es[i]).0 == k + 1 + i by {
        assert(es[i] == s.log[(k - s.gc_threshold) + i]);
    }
    lemma_apply_consecutive(primary.state_at(k), k, es);
}

/// A queue hosted by a replica, with the index of the last event applied.
pub struct ReplicaQueue {
    pub name: String,
    pub db: TreeDatabase,
    pub last_applied: u64,
}

/// A replica queue as values.
pub type ReplicaQueueView = (Seq<char>, QueueView, u64);

/// Each queue's name with its last applied index.
pub open spec fn indices_view(qs: Seq<ReplicaQueueView>) -> Seq<(Seq<char>, u64)> {
    qs.map_values(|q: ReplicaQueueView| (q.0, q.2))
}

/// The queues a replica hosts.
pub struct ReplicaNode {
    queues: Vec<ReplicaQueue>,
}

/// Is `i` the first position of a queue named `name`.
pub open spec fn first_named(qs: Seq<ReplicaQueueView>, name: Seq<char>, i: int) -> bool {
    &&& 0 <= i < qs.len()
    &&& qs[i].0 == name
    &&& forall|k: int| 0 <= k < i ==> (#[trigger] qs[k]).0 != name
}

pub open spec fn named(qs: Seq<ReplicaQueueView>, name: Seq<char>) -> bool {
    exists|i: int| 0 <= i < qs.len() && (#[trigger] qs[i]).0 == name
}

impl ReplicaNode {
    pub closed spec fn view_queues(&self) -> Seq<ReplicaQueueView> {
        self.queues@.map_values(|q: ReplicaQueue| (q.name@, q.db.state(), q.last_applied))
    }

    pub closed spec fn wf(&self) -> bool {
        forall|i: int| 0 <= i < self.queues@.len() ==> (#[trigger] self.queues@[i]).db.wf()
    }

    pub fn new() -> (r: ReplicaNode)
        ensures
            r.wf(),
            r.view_queues() == Seq::<ReplicaQueueView>::empty(),
    {
        let r = ReplicaNode { queues: Vec::new() };
        assert(r.view_queues() =~= Seq::<ReplicaQueueView>::empty());
        r
    }

    /// Hosts a further queue, empty, that has applied nothing yet.
    pub fn add(&mut self, name: String)
        requires
            old(self).wf(),
        ensures
            final(self).wf(),
            final(self).view_queues() == old(self).view_queues().push(
                (name@, QueueView { next_seq: 0, items: Seq::empty() }, 0u64),
            ),
    {
        let ghost n = name@;
        self.queues.push(ReplicaQueue { name, db: TreeDatabase::new(), last_applied: 0 });
        assert(self.view_queues() =~= old(self).view_queues().push((n, QueueView { next_seq: 0, items: Seq::empty() }, 0u64)));
    }

    /// Each hosted queue's name and last applied index, in order.
    pub fn indices(&self) -> (r: Vec<(String, u64)>)
        ensures
            names_view(r@) == indices_view(self.view_queues()),
    {
        let mut r: Vec<(String, u64)> = Vec::new();
        let mut i: usize = 0;
        while i < self.queues.len()
            invariant
                i <= self.queues@.len(),
                names_view(r@) == indices_view(self.view_queues()).take(i as int),
            decreases self.queues@.len() - i,
        {
            let name = self.queues[i].name.clone();
            let ghost before = r@;
            r.push((name, self.queues[i].last_applied));
            assert(names_view(r@) =~= names_view(before).push((self.view_queues()[i as int].0, self.view_queues()[i as int].2)));
            assert(names_view(r@) =~= indices_view(self.view_queues()).take(i + 1));
            i = i + 1;
        }
        assert(indices_view(self.view_queues()).take(i as int)
            =~= indices_view(self.view_queues()));
        r
    }

    fn find(&self, name: &str) -> (r: Option<usize>)
        ensures
            match r {
                Some(i) => first_named(self.view_queues(), name@, i as int),
                None => !named(self.view_queues(), name@),
            },
    {
        let mut i: usize = 0;
        while i < self.queues.len()
            invariant
                i <= self.queues@.len(),
                forall|k: int| 0 <= k < i ==> (#[trigger] self.view_queues()[k]).0 != name@,
            decreases self.queues@.len() - i,
        {
            if str_eq(self.queues[i].name.as_str(), name) {
                return Some(i);
            }
            i = i + 1;
        }
        None
    }

    /// Answers one request of the primary: `Pong` to `Ping`, the indices to
    /// `AskIndex`, and for a range, applies it to the named queue and
    /// acknowledges, or reports the queue missing.
    pub fn respond(&mut self, request: PrimaryRequest) -> (r: ReplicaRequest)
        requires
            old(self).wf(),
        ensures
            final(self).wf(),
            match request@ {
                PrimaryView::Ping => r@ == ReplicaView::Pong && final(self).view_queues() == old(self).view_queues(),
                PrimaryView::AskIndex => r@ == ReplicaView::RecvIndex(
                    indices_view(old(self).view_queues()),
                ) && final(self).view_queues() == old(self).view_queues(),
                PrimaryView::SendRange(name, entries) => if named(old(self).view_queues(), name) {
                    exists|i: int|
                        first_named(old(self).view_queues(), name, i) && r@ == ReplicaView::RecvRange && ({
                            let q = old(self).view_queues()[i];
                            let applied = apply_entries(q.1, q.2, entries);
                            final(self).view_queues() == old(self).view_queues().update(i, (q.0, applied.0, applied.1))
                        })
                } else {
                    r@ == ReplicaView::QueueNotFound(name) && final(self).view_queues() == old(self).view_queues()
                },
            },
    {
        match request {
            PrimaryRequest::Ping => ReplicaRequest::Pong,
            PrimaryRequest::AskIndex => ReplicaRequest::RecvIndex(self.indices()),
            PrimaryRequest::SendRange(name, range) => {
                match self.find(name.as_str()) {
                    None => ReplicaRequest::QueueNotFound(name),
                    Some(i) => {
                        let ghost old_qs = self.view_queues();
                        let mut q = self.queues.remove(i);
                        proof { assert(old(self).queues@[i as int].db.wf()); }
                        let last = apply_range(&mut q.db, q.last_applied, &range);
                        q.last_applied = last;
                        self.queues.insert(i, q);
                        proof {
                            assert(self.view_queues() =~= old_qs.update(i as int, (old_qs[i as int].0, q.db.state(), last)));
                            assert forall|k: int| 0 <= k < self.queues@.len() implies (#[trigger] self.queues@[k]).db.wf() by {
                                if k != i {
                                    assert(self.queues@[k] == old(self).queues@[k]);
                                }
                            }
                        }
                        ReplicaRequest::RecvRange
                    },
                }
            },
        }
    }
}

} // verus!
