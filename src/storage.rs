use vstd::prelude::*;
use std::collections::BTreeMap;
use crate::event::{replay, step, Event, EventView};
use crate::message::Message;
use crate::protocol::{exchange_outcome, range_reply, PrimaryError, PrimaryView, Received};
use crate::tree::{QueueView, TreeDatabase};

verus! {

broadcast use {vstd::std_specs::btree::group_btree_axioms, vstd::laws_cmp::group_laws_cmp};

/// An entry of the replication log: an index and the event recorded under it.
pub type LogEntry = (u64, EventView);

/// What a replication storage holds, as values.
pub struct StorageView {
    pub next_index: u64,
    pub gc_threshold: u64,
    pub log: Seq<LogEntry>,
}

/// Where, in a log that starts after `gc_threshold`, the entries above
/// `index` begin.
pub open spec fn start_above(s: StorageView, index: u64) -> int {
    if index <= s.gc_threshold {
        0
    } else if index - s.gc_threshold >= s.log.len() {
        s.log.len() as int
    } else {
        index - s.gc_threshold
    }
}

/// The log entries whose index is above `index`, in order.
pub open spec fn entries_above(s: StorageView, index: u64) -> Seq<LogEntry> {
    s.log.subrange(start_above(s, index), s.log.len() as int)
}

/// The events of log entries.
pub open spec fn events_of(entries: Seq<LogEntry>) -> Seq<EventView> {
    entries.map_values(|e: LogEntry| e.1)
}

pub open spec fn entries_view(entries: Seq<(u64, Event)>) -> Seq<LogEntry> {
    entries.map_values(|e: (u64, Event)| (e.0, e.1@))
}

proof fn lemma_entries_view_push(s: Seq<(u64, Event)>, x: (u64, Event))
    ensures
        entries_view(s.push(x)) == entries_view(s).push((x.0, x.1@)),
{
    assert(entries_view(s.push(x)) =~= entries_view(s).push((x.0, x.1@)));
}

impl Default for ReplicationStorage {
    fn default() -> (r: ReplicationStorage)
        ensures
            r@ == (StorageView { next_index: 1, gc_threshold: 0, log: Seq::empty() }),
            r@.wf(),
    {
        ReplicationStorage::new()
    }
}

/// Per-queue log of events for replication: every event gets the next index;
/// entries at or below `gc_threshold` have been compacted away.
pub struct ReplicationStorage {
    next_index: u64,
    gc_threshold: u64,
    log: BTreeMap<u64, Event>,
}

impl View for ReplicationStorage {
    type V = StorageView;

    /// The entries in index order: those above the threshold and below the
    /// next index.
    closed spec fn view(&self) -> StorageView {
        let n: nat = if self.gc_threshold < self.next_index {
            (self.next_index - 1 - self.gc_threshold) as nat
        } else {
            0
        };
        StorageView {
            next_index: self.next_index,
            gc_threshold: self.gc_threshold,
            log: Seq::new(n, |i: int| ((self.gc_threshold + 1 + i) as u64, self.log@[(self.gc_threshold + 1 + i) as u64]@)),
        }
    }
}

impl StorageView {
    /// The log holds exactly the indices above the threshold and below the
    /// next index, in increasing order.
    pub open spec fn wf(self) -> bool {
        &&& self.gc_threshold < self.next_index
        &&& self.log.len() == self.next_index - 1 - self.gc_threshold
        &&& forall|i: int| 0 <= i < self.log.len() ==> (#[trigger] self.log[i]).0 == self.gc_threshold + 1 + i
    }
}

impl ReplicationStorage {
    /// The map holds exactly the indices between the threshold and the next
    /// index.
    pub closed spec fn wf(&self) -> bool {
        &&& self.gc_threshold < self.next_index
        &&& forall|k: u64| #[trigger] self.log@.contains_key(k) <==> self.gc_threshold < k < self.next_index
    }

    pub proof fn lemma_wf(&self)
        requires
            self.wf(),
        ensures
            self@.wf(),
    {
    }

    /// An empty log whose first event will get index 1.
    pub fn new() -> (r: ReplicationStorage)
        ensures
            r@ == (StorageView { next_index: 1, gc_threshold: 0, log: Seq::empty() }),
            r.wf(),
            r@.wf(),
    {
        let r = ReplicationStorage { next_index: 1, gc_threshold: 0, log: BTreeMap::new() };
        assert(r@.log =~= Seq::<LogEntry>::empty());
        r
    }

    pub fn next_index(&self) -> (r: u64)
        ensures
            r == self@.next_index,
    {
        self.next_index
    }

    pub fn gc_threshold(&self) -> (r: u64)
        ensures
            r == self@.gc_threshold,
    {
        self.gc_threshold
    }

    /// Is there an index left for another event.
    pub fn can_push(&self) -> (r: bool)
        ensures
            r == (self@.next_index < u64::MAX),
    {
        self.next_index < u64::MAX
    }

    /// Records `event` under the next index.
    pub fn push(&mut self, event: Event)
        requires
            old(self).wf(),
            old(self)@.next_index < u64::MAX,
        ensures
            final(self).wf(),
            final(self)@.wf(),
            final(self)@ == (StorageView {
                next_index: (old(self)@.next_index + 1) as u64,
                gc_threshold: old(self)@.gc_threshold,
                log: old(self)@.log.push((old(self)@.next_index, event@)),
            }),
    {
        let ghost old_view = self@;
        let ghost e = event@;
        let _ = self.log.insert(self.next_index, event);
        self.next_index = self.next_index + 1;
        assert(self@.log =~= old_view.log.push(((self.next_index - 1) as u64, e)));
    }

    /// Copies of the entries whose index is above `index`, in index order:
    /// what a replica that has applied everything up to `index` still needs.
    pub fn range_above(&self, index: u64) -> (r: Vec<(u64, Event)>)
        requires
            self.wf(),
        ensures
            entries_view(r@) == entries_above(self@, index),
    {
        let first: u64 = if index <= self.gc_threshold { self.gc_threshold } else if index >= self.next_index {
            self.next_index - 1
        } else {
            index
        };
        let ghost start = start_above(self@, index);
        assert(start == first - self.gc_threshold);
        let mut r: Vec<(u64, Event)> = Vec::new();
        let mut k: u64 = first;
        assert(entries_view(r@) =~= self@.log.subrange(start, start));
        while k + 1 < self.next_index
            invariant
                self.wf(),
                first <= k < self.next_index,
                self.gc_threshold <= first,
                start == first - self.gc_threshold,
                entries_view(r@) == self@.log.subrange(start, k - self.gc_threshold),
            decreases self.next_index - k,
        {
            let key = k + 1;
            match self.log.get(&key) {
                Some(e) => {
                    let ghost before = r@;
                    r.push((key, e.duplicate()));
                    proof {
                        lemma_entries_view_push(before, (key, *e));
                        assert(entries_view(r@) =~= self@.log.subrange(start, key - self.gc_threshold));
                    }
                },
                None => {
                    proof { assert(false); }
                },
            }
            k = key;
        }
        assert(k - self.gc_threshold == self@.log.len());
        r
    }

    /// Drops the entries at or below `index`, which the replicas have
    /// confirmed; the threshold never moves back nor past the last index.
    pub fn compact(&mut self, index: u64)
        requires
            old(self).wf(),
        ensures
            final(self).wf(),
            final(self)@.wf(),
            final(self)@.next_index == old(self)@.next_index,
            final(self)@.gc_threshold == if index <= old(self)@.gc_threshold {
                old(self)@.gc_threshold
            } else if index >= old(self)@.next_index {
                (old(self)@.next_index - 1) as u64
            } else {
                index
            },
            final(self)@.log == entries_above(old(self)@, index),
    {
        let ghost old_view = self@;
        let ghost old_map = self.log@;
        if index <= self.gc_threshold {
            assert(old_view.log.subrange(0, old_view.log.len() as int) =~= old_view.log);
            return;
        }
        let target: u64 = if index >= self.next_index { self.next_index - 1 } else { index };
        let ghost thr = self.gc_threshold;
        let mut k: u64 = self.gc_threshold;
        while k < target
            invariant
                thr <= k <= target < self.next_index,
                self.gc_threshold == thr,
                old_view == old(self)@,
                old_map == old(self).log@,
                old(self).wf(),
                old(self).gc_threshold == thr,
                self.next_index == old(self).next_index,
                forall|j: u64| #[trigger] self.log@.contains_key(j) <==> k < j < self.next_index,
                forall|j: u64| k < j < self.next_index ==> #[trigger] self.log@[j] == old_map[j],
            decreases target - k,
        {
            let key = k + 1;
            let _ = self.log.remove(&key);
            k = key;
        }
        self.gc_threshold = target;
        assert(self@.log =~= entries_above(old_view, index)) by {
            assert forall|i: int| 0 <= i < self@.log.len() implies self@.log[i] == entries_above(old_view, index)[i] by {
                let j = (target + 1 + i) as u64;
                assert(j == target + 1 + i);
                assert(self.log@[j] == old_map[j]);
                let o = (target - thr) + i;
                assert(0 <= o < old_view.log.len());
                assert(old_view.log[o] == ((thr + 1 + o) as u64, old_map[(thr + 1 + o) as u64]@));
                assert((thr + 1 + o) as u64 == j);
            }
        }
    }
}

} // verus!

verus! {

/// The log after the entries up to `index` were confirmed: the threshold
/// moves up to `index`, but not past the last index, and never back.
pub open spec fn compacted(s: StorageView, index: u64) -> StorageView {
    StorageView {
        next_index: s.next_index,
        gc_threshold: if index <= s.gc_threshold {
            s.gc_threshold
        } else if index >= s.next_index {
            (s.next_index - 1) as u64
        } else {
            index
        },
        log: entries_above(s, index),
    }
}

/// The log after recording `e`, when there is one.
pub open spec fn record(s: Option<StorageView>, e: EventView) -> Option<StorageView> {
    match s {
        None => None,
        Some(v) => Some(StorageView {
            next_index: (v.next_index + 1) as u64,
            gc_threshold: v.gc_threshold,
            log: v.log.push((v.next_index, e)),
        }),
    }
}

proof fn lemma_above_push(s: StorageView, e: EventView, k: u64)
    requires
        s.wf(),
        s.gc_threshold <= k < s.next_index,
    ensures
        entries_above(
            StorageView { next_index: (s.next_index + 1) as u64, gc_threshold: s.gc_threshold, log: s.log.push((s.next_index, e)) },
            k,
        ) == entries_above(s, k).push((s.next_index, e)),
{
    let t = StorageView { next_index: (s.next_index + 1) as u64, gc_threshold: s.gc_threshold, log: s.log.push((s.next_index, e)) };
    assert(entries_above(t, k) =~= entries_above(s, k).push((s.next_index, e)));
}

proof fn lemma_replay_push(q: QueueView, events: Seq<EventView>, e: EventView)
    ensures
        replay(q, events.push(e)) == step(replay(q, events), e),
{
    assert(events.push(e).drop_last() =~= events);
}

proof fn lemma_events_push(entries: Seq<LogEntry>, x: LogEntry)
    ensures
        events_of(entries.push(x)) == events_of(entries).push(x.1),
{
    assert(events_of(entries.push(x)) =~= events_of(entries).push(x.1));
}

/// A queue together with its replication log, when replication is on.
///
/// Every mutation is recorded in the log before it is applied, so the log
/// above any index still held replays the queue from its state at that index.
pub struct ReplicatedDatabase {
    inner: TreeDatabase,
    storage: Option<ReplicationStorage>,
    /// Index at which the log was installed.
    base: Ghost<u64>,
    /// The queue's state after the event at each index since `base`.
    history: Ghost<Map<u64, QueueView>>,
}

impl Default for ReplicatedDatabase {
    /// An empty queue without replication.
    fn default() -> (r: ReplicatedDatabase)
        ensures
            r.wf(),
            r.queue() == (QueueView { next_seq: 0, items: Seq::empty() }),
            r.storage_view() is None,
    {
        ReplicatedDatabase::new(TreeDatabase::new())
    }
}

impl ReplicatedDatabase {
    pub closed spec fn queue(&self) -> QueueView {
        self.inner.state()
    }

    pub closed spec fn storage_view(&self) -> Option<StorageView> {
        match self.storage {
            Some(s) => Some(s@),
            None => None,
        }
    }

    pub closed spec fn stored(&self) -> Option<ReplicationStorage> {
        self.storage
    }

    /// A log just installed on queue state `q`.
    pub open spec fn fresh_log_on(&self, q: QueueView) -> bool {
        &&& self.storage_view() == Some(StorageView { next_index: 1, gc_threshold: 0, log: Seq::empty() })
        &&& self.state_at(0) == q
    }

    /// The queue's state right after the event at index `k`.
    pub closed spec fn state_at(&self, k: u64) -> QueueView {
        self.history@[k]
    }

    /// The lowest index from which the log replays the queue.
    pub closed spec fn first_replayable(&self) -> u64 {
        match self.storage {
            Some(s) => if self.base@ > s@.gc_threshold { self.base@ } else { s@.gc_threshold },
            None => 0,
        }
    }

    /// The log still replays from where `earlier`'s did, and the states it
    /// replays from are those `earlier` had.
    pub closed spec fn extends(&self, earlier: &ReplicatedDatabase) -> bool {
        match (earlier.storage, self.storage) {
            (Some(a), Some(b)) => {
                &&& self.first_replayable() == earlier.first_replayable()
                &&& a@.next_index <= b@.next_index
                &&& forall|k: u64|
                    earlier.first_replayable() <= k < a@.next_index ==> #[trigger] self.history@[k] == earlier.history@[k]
            },
            (Some(_), None) => false,
            (None, _) => true,
        }
    }

    pub closed spec fn replays_from(&self, k: u64) -> bool {
        match self.storage {
            Some(s) => {
                &&& self.history@.contains_key(k)
                &&& replay(self.history@[k], events_of(entries_above(s@, k))) == self.inner.state()
            },
            None => true,
        }
    }

    pub closed spec fn wf(&self) -> bool {
        &&& self.inner.wf()
        &&& match self.storage {
            Some(s) => {
                &&& s.wf()
                &&& self.base@ < s@.next_index
                &&& forall|k: u64| self.first_replayable() <= k < s@.next_index ==> #[trigger] self.replays_from(k)
            },
            None => true,
        }
    }

    /// Can the next mutation be recorded and applied: neither the queue's
    /// sequence counter nor the log's index is exhausted.
    pub open spec fn has_room(&self) -> bool {
        &&& self.queue().next_seq < u64::MAX
        &&& match self.storage_view() {
            Some(s) => s.next_index < u64::MAX,
            None => true,
        }
    }

    /// Replaying the log above any index from `first_replayable` on, starting
    /// from the queue's state at that index, gives the queue's current state.
    pub proof fn lemma_log_replay(&self, k: u64)
        requires
            self.wf(),
            self.storage_view() is Some,
            self.first_replayable() <= k < self.storage_view()->0.next_index,
        ensures
            self.storage_view()->0.wf(),
            self.storage_view()->0.gc_threshold <= self.first_replayable(),
            replay(self.state_at(k), events_of(entries_above(self.storage_view()->0, k))) == self.queue(),
    {
        assert(self.replays_from(k));
    }

    /// Every queue extends itself.
    pub proof fn lemma_extends_refl(a: &ReplicatedDatabase)
        ensures
            a.extends(a),
    {
    }

    /// Extending is transitive.
    pub proof fn lemma_extends_trans(a: &ReplicatedDatabase, b: &ReplicatedDatabase, c: &ReplicatedDatabase)
        requires
            b.extends(a),
            c.extends(b),
            a.storage_view() is Some,
        ensures
            c.extends(a),
    {
    }

    /// A queue whose log was installed while the queue was empty, and not
    /// compacted since: replaying the whole log on an empty queue gives the
    /// queue as it is now.
    pub proof fn lemma_replay_from_empty(installed: &ReplicatedDatabase, current: &ReplicatedDatabase)
        requires
            installed.wf(),
            installed.fresh_log_on(QueueView { next_seq: 0, items: Seq::empty() }),
            current.wf(),
            current.extends(installed),
            current.storage_view() is Some,
            current.storage_view()->0.gc_threshold == 0,
        ensures
            replay(QueueView { next_seq: 0, items: Seq::empty() }, events_of(current.storage_view()->0.log))
                == current.queue(),
    {
        let s = current.storage_view()->0;
        assert(installed.first_replayable() == 0);
        assert(current.state_at(0) == installed.state_at(0));
        current.lemma_log_replay(0);
        assert(entries_above(s, 0) =~= s.log);
    }

    /// A queue without replication.
    pub fn new(inner: TreeDatabase) -> (r: ReplicatedDatabase)
        requires
            inner.wf(),
        ensures
            r.wf(),
            r.queue() == inner.state(),
            r.storage_view() is None,
    {
        ReplicatedDatabase { inner, storage: None, base: Ghost(0), history: Ghost(Map::empty()) }
    }

    pub fn database(&self) -> (r: &TreeDatabase)
        ensures
            r.state() == self.queue(),
            self.wf() ==> r.wf(),
    {
        &self.inner
    }

    pub fn storage(&self) -> (r: &Option<ReplicationStorage>)
        ensures
            match *r {
                Some(s) => self.storage_view() == Some(s@),
                None => self.storage_view() is None,
            },
    {
        &self.storage
    }

    pub fn has_room_now(&self) -> (r: bool)
        requires
            self.wf(),
        ensures
            r == self.has_room(),
    {
        self.inner.can_push() && match &self.storage {
            Some(s) => s.can_push(),
            None => true,
        }
    }

    /// A log that `replace` may return is in place, and the queue's state
    /// `q` is the state at that log's last index.
    pub open spec fn installed_on<R: Fn() -> ReplicationStorage>(&self, q: QueueView, replace: R) -> bool {
        exists|n: ReplicationStorage|
            {
                &&& call_ensures(replace, (), n)
                &&& self.storage_view() == Some(n@)
                &&& self.first_replayable() == (n@.next_index - 1) as u64
                &&& self.state_at((n@.next_index - 1) as u64) == q
            }
    }

    /// Keeps the present log when `filter` accepts it; otherwise, or when
    /// there is none, installs the log `replace` gives. The queue's current
    /// state becomes the state at the installed log's last index.
    pub fn prepare_replication<F: Fn(&ReplicationStorage) -> bool, R: Fn() -> ReplicationStorage>(
        &mut self,
        filter: F,
        replace: R,
    )
        requires
            old(self).wf(),
            forall|s: &ReplicationStorage| call_requires(filter, (s,)),
            call_requires(replace, ()),
            forall|n: ReplicationStorage| call_ensures(replace, (), n) ==> n.wf(),
        ensures
            final(self).wf(),
            final(self).queue() == old(self).queue(),
            final(self).storage_view() is Some,
            old(self).stored() is Some <==> old(self).storage_view() is Some,
            old(self).stored() is Some ==> old(self).stored()->0@ == old(self).storage_view()->0,
            match old(self).storage_view() {
                Some(v) => {
                    ||| call_ensures(filter, (&old(self).stored()->0,), true) && final(self).storage_view()
                        == old(self).storage_view() && final(self).extends(&*old(self))
                    ||| call_ensures(filter, (&old(self).stored()->0,), false) && final(self).installed_on(
                        old(self).queue(),
                        replace,
                    )
                },
                None => final(self).installed_on(old(self).queue(), replace),
            },
    {
        let keep = match &self.storage {
            Some(s) => filter(s),
            None => false,
        };
        if !keep {
            let fresh = replace();
            proof {
                assert(fresh.wf());
                fresh.lemma_wf();
            }
            let ghost last = (fresh@.next_index - 1) as u64;
            self.storage = Some(fresh);
            self.base = Ghost(last);
            self.history = Ghost(Map::empty().insert(last, self.inner.state()));
            proof {
                let s = self.storage->0@;
                assert(self.first_replayable() == last);
                assert forall|k: u64| self.first_replayable() <= k < s.next_index implies #[trigger] self.replays_from(k) by {
                    assert(k == last);
                    assert(entries_above(s, k) =~= Seq::<LogEntry>::empty());
                    assert(events_of(entries_above(s, k)) =~= Seq::<EventView>::empty());
                }
                assert(call_ensures(replace, (), self.storage->0));
            }
        }
    }

    /// Records `event` in the log, when there is one.
    fn push_event(&mut self, event: Event)
        requires
            match old(self).storage {
                Some(s) => s.wf() && s@.next_index < u64::MAX,
                None => true,
            },
        ensures
            final(self).inner == old(self).inner,
            final(self).base == old(self).base,
            final(self).history == old(self).history,
            match final(self).storage {
                Some(s) => s.wf(),
                None => true,
            },
            final(self).storage_view() == record(old(self).storage_view(), event@),
    {
        match &mut self.storage {
            Some(s) => s.push(event),
            None => {},
        }
    }

    /// Notes `q` as the state at the index of the event just recorded.
    fn note_state(&mut self, q: Ghost<QueueView>)
        ensures
            final(self).inner == old(self).inner,
            final(self).storage == old(self).storage,
            final(self).base == old(self).base,
            final(self).history@ == match old(self).storage_view() {
                Some(s) => old(self).history@.insert((s.next_index - 1) as u64, q@),
                None => old(self).history@,
            },
    {
        if self.storage.is_some() {
            let ghost n = (self.storage->0@.next_index - 1) as u64;
            self.history = Ghost(self.history@.insert(n, q@));
        }
    }

    /// Once the event is recorded and its resulting state noted, any queue
    /// in that state makes the whole well formed again.
    proof fn lemma_recorded(mid: &ReplicatedDatabase, before: &ReplicatedDatabase, e: EventView)
        requires
            before.wf(),
            before.has_room(),
            mid.base == before.base,
            mid.storage_view() == record(before.storage_view(), e),
            match mid.storage {
                Some(s) => s.wf(),
                None => true,
            },
            mid.history@ == match before.storage_view() {
                Some(bs) => before.history@.insert(bs.next_index, step(before.queue(), e)),
                None => before.history@,
            },
        ensures
            forall|db: TreeDatabase|
                db.wf() && db.state() == step(before.queue(), e) ==> #[trigger] (ReplicatedDatabase {
                    inner: db,
                    ..*mid
                }).wf(),
            forall|db: TreeDatabase| #[trigger] (ReplicatedDatabase { inner: db, ..*mid }).extends(before),
    {
        let nq = step(before.queue(), e);
        assert forall|db: TreeDatabase| #[trigger] (ReplicatedDatabase { inner: db, ..*mid }).extends(before) by {
            let r = ReplicatedDatabase { inner: db, ..*mid };
            if before.storage is Some && r.storage is Some {
                assert(r.first_replayable() == before.first_replayable());
            }
        }
        assert forall|db: TreeDatabase| db.wf() && db.state() == nq implies #[trigger] (ReplicatedDatabase {
            inner: db,
            ..*mid
        }).wf() by {
            let r = ReplicatedDatabase { inner: db, ..*mid };
            if let Some(s) = r.storage {
                let bs = before.storage->0@;
                let n = bs.next_index;
                assert forall|k: u64| r.first_replayable() <= k < s@.next_index implies #[trigger] r.replays_from(k) by {
                    if k == n {
                        assert(entries_above(s@, k) =~= Seq::<LogEntry>::empty());
                        assert(events_of(entries_above(s@, k)) =~= Seq::<EventView>::empty());
                    } else {
                        assert(before.replays_from(k));
                        lemma_above_push(bs, e, k);
                        lemma_events_push(entries_above(bs, k), (n, e));
                        lemma_replay_push(before.history@[k], events_of(entries_above(bs, k)), e);
                    }
                }
            }
        }
    }

    pub fn push(&mut self, message: Message)
        requires
            old(self).wf(),
            old(self).has_room(),
        ensures
            final(self).wf(),
            final(self).queue() == step(old(self).queue(), EventView::Push(message@)),
            final(self).storage_view() == record(old(self).storage_view(), EventView::Push(message@)),
            final(self).extends(&*old(self)),
    {
        let ghost before = *self;
        let ghost e = EventView::Push(message@);
        if self.storage.is_some() {
            self.push_event(Event::Push(message.duplicate()));
        }
        self.note_state(Ghost(step(before.queue(), e)));
        proof { ReplicatedDatabase::lemma_recorded(&*self, &before, e); }
        self.inner.push_raw(message);
    }

    pub fn requeue(&mut self, id: u128) -> (r: Option<()>)
        requires
            old(self).wf(),
            old(self).has_room(),
        ensures
            final(self).wf(),
            final(self).queue() == step(old(self).queue(), EventView::Requeue(id)),
            final(self).storage_view() == record(old(self).storage_view(), EventView::Requeue(id)),
            final(self).extends(&*old(self)),
            r is Some <==> crate::tree::has_id(old(self).queue().items, id) && old(self).queue().items[crate::tree::pos_of(
                old(self).queue().items,
                id,
            )].1.requeueable(),
    {
        let ghost before = *self;
        let ghost e = EventView::Requeue(id);
        self.push_event(Event::Requeue(id));
        self.note_state(Ghost(step(before.queue(), e)));
        proof { ReplicatedDatabase::lemma_recorded(&*self, &before, e); }
        self.inner.requeue(id)
    }

    pub fn delete(&mut self, id: u128) -> (r: Option<Message>)
        requires
            old(self).wf(),
            old(self).has_room(),
        ensures
            final(self).wf(),
            final(self).queue() == step(old(self).queue(), EventView::Delete(id)),
            final(self).storage_view() == record(old(self).storage_view(), EventView::Delete(id)),
            final(self).extends(&*old(self)),
            crate::tree::has_id(old(self).queue().items, id) ==> r is Some && r->0@ == old(self).queue().items[crate::tree::pos_of(
                old(self).queue().items,
                id,
            )].1,
            !crate::tree::has_id(old(self).queue().items, id) ==> r is None,
    {
        let ghost before = *self;
        let ghost e = EventView::Delete(id);
        self.push_event(Event::Delete(id));
        self.note_state(Ghost(step(before.queue(), e)));
        proof { ReplicatedDatabase::lemma_recorded(&*self, &before, e); }
        self.inner.delete(id)
    }

    pub fn gc(&mut self, now: i64)
        requires
            old(self).wf(),
            old(self).has_room(),
        ensures
            final(self).wf(),
            final(self).queue() == step(old(self).queue(), EventView::Gc(now)),
            final(self).storage_view() == record(old(self).storage_view(), EventView::Gc(now)),
            final(self).extends(&*old(self)),
    {
        let ghost before = *self;
        let ghost e = EventView::Gc(now);
        self.push_event(Event::Gc(now));
        self.note_state(Ghost(step(before.queue(), e)));
        proof { ReplicatedDatabase::lemma_recorded(&*self, &before, e); }
        self.inner.gc(now)
    }

    pub fn clear(&mut self)
        requires
            old(self).wf(),
            old(self).has_room(),
        ensures
            final(self).wf(),
            final(self).queue() == step(old(self).queue(), EventView::Clear),
            final(self).storage_view() == record(old(self).storage_view(), EventView::Clear),
            final(self).extends(&*old(self)),
    {
        let ghost before = *self;
        let ghost e = EventView::Clear;
        self.push_event(Event::Clear);
        self.note_state(Ghost(step(before.queue(), e)));
        proof { ReplicatedDatabase::lemma_recorded(&*self, &before, e); }
        self.inner.clear()
    }

    /// The logged entries above `index`, for a replica that has applied
    /// everything up to it; empty without a log.
    pub fn range_above(&self, index: u64) -> (r: Vec<(u64, Event)>)
        requires
            self.wf(),
        ensures
            match self.storage_view() {
                Some(s) => entries_view(r@) == entries_above(s, index),
                None => r@.len() == 0,
            },
    {
        match &self.storage {
            Some(s) => s.range_above(index),
            None => Vec::new(),
        }
    }

    /// A replica confirmed everything up to `index`: the log drops those
    /// entries. Without a log nothing happens.
    pub fn confirm(&mut self, index: u64)
        requires
            old(self).wf(),
        ensures
            final(self).wf(),
            final(self).queue() == old(self).queue(),
            final(self).storage_view() == match old(self).storage_view() {
                Some(s) => Some(compacted(s, index)),
                None => None,
            },
    {
        let ghost before = *self;
        match &mut self.storage {
            Some(s) => s.compact(index),
            None => {},
        }
        proof {
            if self.storage is Some {
                let s = self.storage->0;
                let bs = before.storage->0@;
                assert forall|k: u64| self.first_replayable() <= k < s@.next_index implies #[trigger] self.replays_from(k) by {
                    assert(before.replays_from(k));
                    assert(entries_above(s@, k) =~= entries_above(bs, k));
                }
            }
        }
    }

    /// A replica acknowledged `range`: the log drops everything up to the
    /// last index shipped in it. An empty range changes nothing.
    pub fn confirm_range(&mut self, range: &Vec<(u64, Event)>)
        requires
            old(self).wf(),
        ensures
            final(self).wf(),
            final(self).queue() == old(self).queue(),
            range@.len() == 0 ==> final(self).storage_view() == old(self).storage_view(),
            range@.len() > 0 ==> final(self).storage_view() == match old(self).storage_view() {
                Some(s) => Some(compacted(s, range@.last().0)),
                None => None,
            },
    {
        if range.len() > 0 {
            let last = range[range.len() - 1].0;
            self.confirm(last);
        }
    }

    /// Handles the replica's answer to `shipped`, a range of this queue
    /// sent under the name `queue`: on `RecvRange` the log drops what was
    /// shipped, on `QueueNotFound` nothing changes, anything else ends the
    /// session with its error.
    pub fn finish_range(&mut self, queue: &String, shipped: &Vec<(u64, Event)>, received: Received) -> (r: Result<
        bool,
        PrimaryError,
    >)
        requires
            old(self).wf(),
        ensures
            final(self).wf(),
            final(self).queue() == old(self).queue(),
            match exchange_outcome(PrimaryView::SendRange(queue@, Seq::empty()), received) {
                Ok(v) => r == Ok::<bool, PrimaryError>(v is RecvRange),
                Err(e) => r == Err::<bool, PrimaryError>(e),
            },
            r == Ok::<bool, PrimaryError>(true) && shipped@.len() > 0 ==> final(self).storage_view() == match old(
                self,
            ).storage_view() {
                Some(s) => Some(compacted(s, shipped@.last().0)),
                None => None,
            },
            r != Ok::<bool, PrimaryError>(true) || shipped@.len() == 0 ==> final(self).storage_view() == old(
                self,
            ).storage_view(),
    {
        let r = range_reply(queue, received);
        if let Ok(true) = r {
            self.confirm_range(shipped);
        }
        r
    }

    /// The first message obtainable at `now`; records nothing.
    pub fn peek(&self, now: i64) -> (r: Option<&Message>)
        requires
            self.wf(),
        ensures
            r is None <==> crate::tree::none_obtainable(self.queue().items, now),
            r is Some ==> {
                let j = crate::tree::pos_of(self.queue().items, r->0.id);
                &&& crate::tree::first_obtainable(self.queue().items, now, j)
                &&& r->0@ == self.queue().items[j].1
            },
    {
        self.inner.peek(now)
    }

    pub fn size(&self) -> (r: usize)
        requires
            self.wf(),
        ensures
            r == self.queue().items.len(),
    {
        self.inner.len()
    }

    pub fn pop(&mut self, now: i64) -> (r: Option<&Message>)
        requires
            old(self).wf(),
            old(self).has_room(),
        ensures
            final(self).wf(),
            final(self).queue() == step(old(self).queue(), EventView::Pop(now)),
            final(self).storage_view() == record(old(self).storage_view(), EventView::Pop(now)),
            final(self).extends(&*old(self)),
            r is None <==> crate::tree::none_obtainable(old(self).queue().items, now),
            r is Some ==> {
                let j = crate::tree::pos_of(old(self).queue().items, r->0.id);
                &&& crate::tree::first_obtainable(old(self).queue().items, now, j)
                &&& r->0@ == final(self).queue().items[j].1
            },
    {
        let ghost before = *self;
        let ghost e = EventView::Pop(now);
        self.push_event(Event::Pop(now));
        self.note_state(Ghost(step(before.queue(), e)));
        proof { ReplicatedDatabase::lemma_recorded(&*self, &before, e); }
        self.inner.pop(now)
    }
}

} // verus!
