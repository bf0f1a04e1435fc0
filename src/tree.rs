use vstd::prelude::*;
use std::collections::HashMap;
use crate::message::{Message, MessageState, MessageView, Dispatchable, Status};

verus! {

broadcast use vstd::std_specs::hash::group_hash_axioms;

/// A queued message with the insertion sequence number it was pushed under.
pub type Item = (u64, MessageView);

/// Rank of a delay in the sort order: no delay comes before every delay.
pub open spec fn delay_rank(d: Option<i64>) -> int {
    match d {
        Some(x) => x as int,
        None => i64::MIN - 1,
    }
}

/// The sort order of the queue: offset, then delay, then insertion order.
pub open spec fn key_before(o1: i32, d1: Option<i64>, s1: u64, o2: i32, d2: Option<i64>, s2: u64) -> bool {
    ||| o1 < o2
    ||| o1 == o2 && delay_rank(d1) < delay_rank(d2)
    ||| o1 == o2 && delay_rank(d1) == delay_rank(d2) && s1 < s2
}

pub open spec fn item_before(a: Item, b: Item) -> bool {
    key_before(a.1.offset, a.1.delay, a.0, b.1.offset, b.1.delay, b.0)
}

/// Items in strictly increasing sort order.
pub open spec fn sorted(items: Seq<Item>) -> bool {
    forall|i: int, j: int| 0 <= i < j < items.len() ==> item_before(#[trigger] items[i], #[trigger] items[j])
}

pub open spec fn ids_unique(items: Seq<Item>) -> bool {
    forall|i: int, j: int|
        0 <= i < items.len() && 0 <= j < items.len() && i != j ==> #[trigger] items[i].1.id != #[trigger] items[j].1.id
}

pub open spec fn has_id(items: Seq<Item>, id: u128) -> bool {
    exists|j: int| 0 <= j < items.len() && #[trigger] items[j].1.id == id
}

/// Where the message with `id` stands; meaningful when `has_id(items, id)`.
pub open spec fn pos_of(items: Seq<Item>, id: u128) -> int {
    choose|j: int| 0 <= j < items.len() && #[trigger] items[j].1.id == id
}

/// The items without the message that has `id`, if any.
pub open spec fn without(items: Seq<Item>, id: u128) -> Seq<Item> {
    if has_id(items, id) {
        items.remove(pos_of(items, id))
    } else {
        items
    }
}

/// Is `j` the first position holding a message obtainable at `now`.
pub open spec fn first_obtainable(items: Seq<Item>, now: i64, j: int) -> bool {
    &&& 0 <= j < items.len()
    &&& items[j].1.obtainable(now)
    &&& forall|k: int| 0 <= k < j ==> !(#[trigger] items[k].1.obtainable(now))
}

pub open spec fn none_obtainable(items: Seq<Item>, now: i64) -> bool {
    forall|k: int| 0 <= k < items.len() ==> !(#[trigger] items[k].1.obtainable(now))
}

/// The items at the positions where `keep` is true, in order.
pub open spec fn select(items: Seq<Item>, keep: Seq<bool>) -> Seq<Item>
    decreases items.len(),
{
    if items.len() == 0 || keep.len() != items.len() {
        Seq::empty()
    } else {
        let rest = select(items.drop_last(), keep.drop_last());
        if keep.last() {
            rest.push(items.last())
        } else {
            rest
        }
    }
}

/// The items that garbage collection at `now` keeps.
pub open spec fn gc_keep(items: Seq<Item>, now: i64) -> Seq<bool> {
    Seq::new(items.len(), |j: int| !items[j].1.garbage(now))
}


/// One more position: `select` extends by the item when it is kept.
proof fn lemma_select_step(items: Seq<Item>, keep: Seq<bool>, i: int, b: bool)
    requires
        0 <= i < items.len(),
        keep.len() == i,
    ensures
        select(items.subrange(0, i + 1), keep.push(b)) == if b {
            select(items.subrange(0, i), keep).push(items[i])
        } else {
            select(items.subrange(0, i), keep)
        },
{
    let s = items.subrange(0, i + 1);
    assert(s.drop_last() =~= items.subrange(0, i));
    assert(keep.push(b).drop_last() =~= keep);
}


/// `x` placed among sorted `items` at the position its sort key gives.
pub open spec fn insert_sorted(items: Seq<Item>, x: Item) -> Seq<Item>
    decreases items.len(),
{
    if items.len() == 0 {
        seq![x]
    } else if item_before(items.last(), x) {
        items.push(x)
    } else {
        insert_sorted(items.drop_last(), x).push(items.last())
    }
}

proof fn lemma_insert_sorted(items: Seq<Item>, x: Item, i: int)
    requires
        0 <= i <= items.len(),
        forall|k: int| 0 <= k < i ==> item_before(#[trigger] items[k], x),
        forall|k: int| i <= k < items.len() ==> !item_before(#[trigger] items[k], x),
    ensures
        insert_sorted(items, x) == items.insert(i, x),
    decreases items.len(),
{
    if items.len() == 0 {
        assert(items.insert(i, x) =~= seq![x]);
    } else if i == items.len() {
        assert(items.push(x) =~= items.insert(i, x));
    } else {
        let d = items.drop_last();
        assert forall|k: int| 0 <= k < i implies item_before(#[trigger] d[k], x) by {
            assert(d[k] == items[k]);
        }
        assert forall|k: int| i <= k < d.len() implies !item_before(#[trigger] d[k], x) by {
            assert(d[k] == items[k]);
        }
        lemma_insert_sorted(d, x, i);
        assert(d.insert(i, x).push(items.last()) =~= items.insert(i, x));
    }
}

/// The first position holding a message obtainable at `now`; meaningful
/// unless `none_obtainable(items, now)`.
pub open spec fn first_pos(items: Seq<Item>, now: i64) -> int {
    choose|j: int| first_obtainable(items, now, j)
}

/// The items after a pop at `now`.
pub open spec fn pop_items(items: Seq<Item>, now: i64) -> Seq<Item> {
    if none_obtainable(items, now) {
        items
    } else {
        let j = first_pos(items, now);
        items.update(j, (items[j].0, items[j].1.reserved(now)))
    }
}

/// The items after a requeue of `id`.
pub open spec fn requeue_items(items: Seq<Item>, id: u128) -> Seq<Item> {
    let j = pos_of(items, id);
    if has_id(items, id) && items[j].1.requeueable() {
        items.update(j, (items[j].0, items[j].1.requeued()))
    } else {
        items
    }
}

/// There is only one first obtainable position.
pub proof fn lemma_first_pos(items: Seq<Item>, now: i64, j: int)
    requires
        first_obtainable(items, now, j),
    ensures
        first_pos(items, now) == j,
        !none_obtainable(items, now),
{
    let f = first_pos(items, now);
    assert(first_obtainable(items, now, f));
    if f < j {
        assert(!items[f].1.obtainable(now));
    }
    if j < f {
        assert(!items[j].1.obtainable(now));
    }
}

/// A pop hands out a message that was obtainable just before, and leaves
/// it in transit since the pop, with one more try (short of `u32::MAX`).
pub proof fn lemma_pop_reserves(items: Seq<Item>, now: i64)
    requires
        !none_obtainable(items, now),
    ensures
        ({
            let j = first_pos(items, now);
            let after = pop_items(items, now)[j].1;
            &&& 0 <= j < items.len()
            &&& items[j].1.obtainable(now)
            &&& after.id == items[j].1.id
            &&& after.state == MessageState::InTransit(now)
            &&& items[j].1.tries < u32::MAX ==> after.tries == items[j].1.tries + 1
        }),
{
    let k = choose|k: int| 0 <= k < items.len() && #[trigger] items[k].1.obtainable(now);
    let j = lemma_first_below(items, now, k);
    lemma_first_pos(items, now, j);
}

/// Below an obtainable position there is a first obtainable one.
proof fn lemma_first_below(items: Seq<Item>, now: i64, k: int) -> (j: int)
    requires
        0 <= k < items.len(),
        items[k].1.obtainable(now),
    ensures
        first_obtainable(items, now, j),
    decreases k,
{
    if exists|l: int| 0 <= l < k && #[trigger] items[l].1.obtainable(now) {
        let l = choose|l: int| 0 <= l < k && #[trigger] items[l].1.obtainable(now);
        lemma_first_below(items, now, l)
    } else {
        k
    }
}

/// The message after `times` reservations at `now`.
pub open spec fn reserved_times(m: MessageView, times: nat, now: i64) -> MessageView
    decreases times,
{
    if times == 0 {
        m
    } else {
        reserved_times(m, (times - 1) as nat, now).reserved(now)
    }
}

/// A message that has never been tried and is reserved as many times as
/// it has tries has none left.
pub proof fn lemma_tries_used_up(m: MessageView, now: i64)
    requires
        m.tries == 0,
    ensures
        reserved_times(m, m.max_tries as nat, now).tries == m.max_tries,
        !reserved_times(m, m.max_tries as nat, now).has_tries(),
{
    lemma_reserved_count(m, m.max_tries as nat, now);
}

proof fn lemma_reserved_count(m: MessageView, times: nat, now: i64)
    requires
        m.tries == 0,
        times <= u32::MAX,
    ensures
        reserved_times(m, times, now).tries == times,
        reserved_times(m, times, now).max_tries == m.max_tries,
    decreases times,
{
    if times > 0 {
        lemma_reserved_count(m, (times - 1) as nat, now);
    }
}

/// An item of `select(items, keep)` stands in `items` at a kept position.
pub proof fn lemma_select_member(items: Seq<Item>, keep: Seq<bool>, a: int)
    requires
        0 <= a < select(items, keep).len(),
    ensures
        exists|k: int| 0 <= k < items.len() && keep[k] && items[k] == select(items, keep)[a],
    decreases items.len(),
{
    let rest = select(items.drop_last(), keep.drop_last());
    if keep.last() && a == rest.len() {
        assert(keep[items.len() - 1] && items[items.len() - 1] == select(items, keep)[a]);
    } else {
        lemma_select_member(items.drop_last(), keep.drop_last(), a);
        let k = choose|k: int| 0 <= k < items.drop_last().len() && keep.drop_last()[k] && items.drop_last()[k] == rest[a];
        assert(keep[k] && items[k] == select(items, keep)[a]);
    }
}

/// Garbage collection removes a message without tries left.
pub proof fn lemma_gc_removes_exhausted(items: Seq<Item>, now: i64, j: int)
    requires
        ids_unique(items),
        0 <= j < items.len(),
        !items[j].1.has_tries(),
    ensures
        !has_id(select(items, gc_keep(items, now)), items[j].1.id),
{
    let kept = select(items, gc_keep(items, now));
    if has_id(kept, items[j].1.id) {
        let a = choose|a: int| 0 <= a < kept.len() && #[trigger] kept[a].1.id == items[j].1.id;
        lemma_select_member(items, gc_keep(items, now), a);
        let k = choose|k: int| 0 <= k < items.len() && gc_keep(items, now)[k] && items[k] == kept[a];
        assert(items[k].1.id == items[j].1.id);
        assert(k == j);
    }
}

/// The state of a queue as values: the next insertion sequence number and
/// the messages in queue order.
pub struct QueueView {
    pub next_seq: u64,
    pub items: Seq<Item>,
}

/// The items of a vector of sequence numbers and messages.
pub open spec fn items_view(v: Seq<(u64, Message)>) -> Seq<Item> {
    v.map_values(|e: (u64, Message)| (e.0, e.1@))
}

/// What a well-formed queue's state satisfies.
pub open spec fn valid_queue(q: QueueView) -> bool {
    &&& sorted(q.items)
    &&& ids_unique(q.items)
    &&& forall|i: int| 0 <= i < q.items.len() ==> (#[trigger] q.items[i]).0 < q.next_seq
}

fn last_entry(v: &Vec<IndexEntry>) -> (r: IndexEntry)
    requires
        v@.len() > 0,
    ensures
        r == v@.last(),
{
    v[v.len() - 1]
}

/// `predicate` may answer `b` on a message whose value is `v`.
pub open spec fn decides<F: Fn(&Message) -> bool>(predicate: F, v: MessageView, b: bool) -> bool {
    exists|m: Message| m@ == v && call_ensures(predicate, (&m,), b)
}

/// An entry of the secondary index: the sort key of a message and its id.
#[derive(Clone, Copy, Debug, PartialEq, Eq, Structural)]
pub struct IndexEntry {
    pub offset: i32,
    pub delay: Option<i64>,
    pub seq: u64,
    pub id: u128,
}

fn entry_before(a: &IndexEntry, b: &IndexEntry) -> (r: bool)
    ensures
        r == key_before(a.offset, a.delay, a.seq, b.offset, b.delay, b.seq),
{
    if a.offset != b.offset {
        return a.offset < b.offset;
    }
    match (a.delay, b.delay) {
        (None, Some(_)) => true,
        (Some(_), None) => false,
        (Some(x), Some(y)) if x != y => x < y,
        _ => a.seq < b.seq,
    }
}

impl Default for TreeDatabase {
    fn default() -> (r: TreeDatabase)
        ensures
            r.wf(),
            r.items() == Seq::<Item>::empty(),
            r.next_seq() == 0,
    {
        TreeDatabase::new()
    }
}

/// The queue engine: a store of messages keyed by id, and a secondary index
/// that orders them by (offset, delay, insertion sequence).
pub struct TreeDatabase {
    last_insert_id: u64,
    objects: HashMap<u128, (u64, Message)>,
    // The index is a vector kept in sort order rather than a `BTreeMap`:
    // peek, pop and position walk it from the front and stop at the first
    // match, and insertion and removal happen at a position; vstd states a
    // map's order only through a whole-map iterator and has no `range`, so
    // the positional reasoning these operations need is stated here.
    queue_tree: Vec<IndexEntry>,
}

impl TreeDatabase {
    /// The messages in queue order, each with its insertion sequence number.
    pub closed spec fn items(&self) -> Seq<Item> {
        self.queue_tree@.map_values(|e: IndexEntry| (e.seq, self.objects@[e.id].1@))
    }

    /// Sequence counter and items together.
    pub open spec fn state(&self) -> QueueView {
        QueueView { next_seq: self.next_seq(), items: self.items() }
    }

    /// The sequence number the next push will take.
    pub closed spec fn next_seq(&self) -> u64 {
        self.last_insert_id
    }

    /// The ids held by the store.
    pub closed spec fn store_ids(&self) -> Set<u128> {
        self.objects@.dom()
    }

    /// The ids held by the secondary index.
    pub closed spec fn index_ids(&self) -> Set<u128> {
        Set::new(|id: u128| exists|i: int| 0 <= i < self.queue_tree@.len() && #[trigger] self.queue_tree@[i].id == id)
    }

    closed spec fn entry_ok(&self, i: int) -> bool {
        let e = self.queue_tree@[i];
        &&& self.objects@.contains_key(e.id)
        &&& self.objects@[e.id].0 == e.seq
        &&& self.objects@[e.id].1.id == e.id
        &&& self.objects@[e.id].1.offset == e.offset
        &&& self.objects@[e.id].1.delay == e.delay
        &&& e.seq < self.last_insert_id
    }

    /// Store and index describe the same messages, the index in sort order.
    pub closed spec fn wf(&self) -> bool {
        &&& forall|i: int| 0 <= i < self.queue_tree@.len() ==> #[trigger] self.entry_ok(i)
        &&& forall|id: u128| #[trigger] self.objects@.contains_key(id) ==> exists|i: int|
            0 <= i < self.queue_tree@.len() && #[trigger] self.queue_tree@[i].id == id
        &&& sorted(self.items())
        &&& ids_unique(self.items())
    }

    /// What a well-formed queue guarantees of its items.
    pub proof fn lemma_items(&self)
        requires
            self.wf(),
        ensures
            valid_queue(self.state()),
            sorted(self.items()),
            ids_unique(self.items()),
            forall|i: int| 0 <= i < self.items().len() ==> (#[trigger] self.items()[i]).0 < self.next_seq(),
    {
        assert forall|i: int| 0 <= i < self.items().len() implies (#[trigger] self.items()[i]).0 < self.next_seq() by {
            assert(self.entry_ok(i));
        }
    }

    /// An empty queue.
    pub fn new() -> (r: TreeDatabase)
        ensures
            r.wf(),
            r.items() == Seq::<Item>::empty(),
            r.next_seq() == 0,
    {
        let r = TreeDatabase { last_insert_id: 0, objects: HashMap::new(), queue_tree: Vec::new() };
        assert(r.items() =~= Seq::<Item>::empty());
        r
    }

    pub fn next_seq_now(&self) -> (r: u64)
        ensures
            r == self.next_seq(),
    {
        self.last_insert_id
    }

    /// Can another message be pushed: the sequence counter is not exhausted.
    pub fn can_push(&self) -> (r: bool)
        ensures
            r == (self.next_seq() < u64::MAX),
    {
        self.last_insert_id < u64::MAX
    }

    /// Number of messages.
    pub fn len(&self) -> (r: usize)
        requires
            self.wf(),
        ensures
            r == self.items().len(),
    {
        self.queue_tree.len()
    }

    pub fn is_empty(&self) -> (r: bool)
        requires
            self.wf(),
        ensures
            r == (self.items().len() == 0),
    {
        self.queue_tree.len() == 0
    }

    /// Position in the index of the entry with `id`.
    fn index_position(&self, id: u128) -> (r: Option<usize>)
        requires
            self.wf(),
        ensures
            match r {
                Some(j) => j < self.queue_tree@.len() && self.queue_tree@[j as int].id == id,
                None => !self.objects@.contains_key(id),
            },
    {
        let mut i: usize = 0;
        while i < self.queue_tree.len()
            invariant
                self.wf(),
                i <= self.queue_tree@.len(),
                forall|k: int| 0 <= k < i ==> (#[trigger] self.queue_tree@[k]).id != id,
            decreases self.queue_tree@.len() - i,
        {
            if self.queue_tree[i].id == id {
                return Some(i);
            }
            i = i + 1;
        }
        None
    }

    /// The message with `id`.
    pub fn get(&self, id: u128) -> (r: Option<&Message>)
        requires
            self.wf(),
        ensures
            has_id(self.items(), id) ==> r is Some && r->0@ == self.items()[pos_of(self.items(), id)].1,
            !has_id(self.items(), id) ==> r is None,
    {
        proof { self.lemma_ids(id); }
        match self.objects.get(&id) {
            Some(entry) => Some(&entry.1),
            None => None,
        }
    }

    /// Removes the message with `id` from store and index.
    pub fn delete(&mut self, id: u128) -> (r: Option<Message>)
        requires
            old(self).wf(),
        ensures
            final(self).wf(),
            final(self).next_seq() == old(self).next_seq(),
            !has_id(final(self).items(), id),
            has_id(old(self).items(), id) ==> {
                let j = pos_of(old(self).items(), id);
                &&& r is Some
                &&& r->0@ == old(self).items()[j].1
                &&& final(self).items() == old(self).items().remove(j)
            },
            !has_id(old(self).items(), id) ==> r is None && final(self).items() == old(self).items(),
    {
        proof { self.lemma_ids(id); }
        match self.index_position(id) {
            None => None,
            Some(j) => {
                let ghost old_self = *self;
                let entry = self.objects.remove(&id);
                self.queue_tree.remove(j);
                proof {
                    let oi = old_self.items();
                    assert(old_self.entry_ok(j as int));
                    assert(oi[j as int].1.id == id);
                    assert(pos_of(oi, id) == j as int);
                    assert forall|k: int| 0 <= k < self.queue_tree@.len() implies #[trigger] self.entry_ok(k) by {
                        let ko = if k < j { k } else { k + 1 };
                        assert(old_self.entry_ok(ko));
                        assert(oi[ko].1.id != id);
                    }
                    assert(self.items() =~= oi.remove(j as int)) by {
                        assert forall|k: int| 0 <= k < self.queue_tree@.len() implies self.items()[k] == oi.remove(j as int)[k] by {
                            let ko = if k < j { k } else { k + 1 };
                            assert(old_self.entry_ok(ko));
                            assert(oi[ko].1.id != id);
                        }
                    }
                    assert forall|x: u128| #[trigger] self.objects@.contains_key(x) implies exists|i: int|
                        0 <= i < self.queue_tree@.len() && #[trigger] self.queue_tree@[i].id == x by {
                        let i = choose|i: int| 0 <= i < old_self.queue_tree@.len() && #[trigger] old_self.queue_tree@[i].id == x;
                        assert(i != j);
                        let ki = if i < j { i } else { i - 1 };
                        assert(self.queue_tree@[ki].id == x);
                    }
                    self.lemma_ids(id);
                }
                match entry {
                    Some(e) => Some(e.1),
                    None => None,
                }
            }
        }
    }

    /// Inserts `message` under the next insertion sequence number; a message
    /// already stored under the same id is replaced.
    pub fn push_raw(&mut self, message: Message)
        requires
            old(self).wf(),
            old(self).next_seq() < u64::MAX,
        ensures
            final(self).wf(),
            final(self).next_seq() == old(self).next_seq() + 1,
            final(self).items() == insert_sorted(without(old(self).items(), message@.id), (old(self).next_seq(), message@)),
    {
        let ghost old_items = self.items();
        let _ = self.delete(message.id);
        proof {
            if has_id(old_items, message@.id) {
                assert(self.items() == without(old_items, message@.id));
            } else {
                assert(self.items() == without(old_items, message@.id));
            }
            self.lemma_ids(message.id);
        }
        let ghost mid = *self;
        let seq = self.last_insert_id;
        let entry = IndexEntry { offset: message.offset, delay: message.delay, seq, id: message.id };
        let mut i: usize = 0;
        while i < self.queue_tree.len() && entry_before(&self.queue_tree[i], &entry)
            invariant
                *self == mid,
                mid.wf(),
                i <= self.queue_tree@.len(),
                forall|k: int| 0 <= k < i ==> key_before(
                    (#[trigger] self.queue_tree@[k]).offset, self.queue_tree@[k].delay, self.queue_tree@[k].seq,
                    entry.offset, entry.delay, entry.seq),
            decreases self.queue_tree@.len() - i,
        {
            i = i + 1;
        }
        self.queue_tree.insert(i, entry);
        self.objects.insert(message.id, (seq, message));
        self.last_insert_id = seq + 1;
        proof {
            let mi = mid.items();
            let ni = mi.insert(i as int, (seq, message@));
            let id = message@.id;
            assert(!mid.objects@.contains_key(id));
            assert forall|k: int| 0 <= k < self.queue_tree@.len() implies #[trigger] self.entry_ok(k) by {
                if k != i {
                    let ko = if k < i { k } else { k - 1 };
                    assert(mid.entry_ok(ko));
                }
            }
            assert(self.items() =~= ni) by {
                assert forall|k: int| 0 <= k < self.queue_tree@.len() implies self.items()[k] == ni[k] by {
                    if k != i {
                        let ko = if k < i { k } else { k - 1 };
                        assert(mid.entry_ok(ko));
                    }
                }
            }
            assert forall|x: u128| #[trigger] self.objects@.contains_key(x) implies exists|k: int|
                0 <= k < self.queue_tree@.len() && #[trigger] self.queue_tree@[k].id == x by {
                if x == id {
                    assert(self.queue_tree@[i as int].id == x);
                } else {
                    let k = choose|k: int| 0 <= k < mid.queue_tree@.len() && #[trigger] mid.queue_tree@[k].id == x;
                    let kn = if k < i { k } else { k + 1 };
                    assert(self.queue_tree@[kn].id == x);
                }
            }
            if i < mid.queue_tree@.len() {
                assert(mid.entry_ok(i as int));
                assert(!key_before(mid.queue_tree@[i as int].offset, mid.queue_tree@[i as int].delay,
                    mid.queue_tree@[i as int].seq, entry.offset, entry.delay, entry.seq));
            }
            assert forall|a: int, b: int| 0 <= a < b < ni.len() implies item_before(#[trigger] ni[a], #[trigger] ni[b]) by {
                if a < i && b > i {
                    assert(mid.entry_ok(a));
                    assert(item_before(mi[a], (seq, message@)));
                    assert(item_before((seq, message@), mi[i as int]));
                } else if a == i && b > i {
                    assert(item_before((seq, message@), mi[i as int]));
                    if b - 1 > i {
                        assert(item_before(mi[i as int], mi[b - 1]));
                    }
                } else if a < i && b == i {
                    assert(mid.entry_ok(a));
                } else if a > i {
                    assert(item_before(mi[a - 1], mi[b - 1]));
                } else {
                    assert(item_before(mi[a], mi[b]));
                }
            }
            assert forall|a: int, b: int|
                0 <= a < ni.len() && 0 <= b < ni.len() && a != b implies #[trigger] ni[a].1.id != #[trigger] ni[b].1.id by {
                if a == i {
                    let bo = if b < i { b } else { b - 1 };
                    assert(mid.entry_ok(bo));
                } else if b == i {
                    let ao = if a < i { a } else { a - 1 };
                    assert(mid.entry_ok(ao));
                } else {
                    let ao = if a < i { a } else { a - 1 };
                    let bo = if b < i { b } else { b - 1 };
                    assert(mi[ao].1.id != mi[bo].1.id);
                }
            }
            assert forall|k: int| i <= k < mi.len() implies !item_before(#[trigger] mi[k], (seq, message@)) by {
                assert(item_before((seq, message@), mi[i as int]));
                if k > i {
                    assert(item_before(mi[i as int], mi[k]));
                }
            }
            assert forall|k: int| 0 <= k < i implies item_before(#[trigger] mi[k], (seq, message@)) by {
                assert(mid.entry_ok(k));
            }
            lemma_insert_sorted(mi, (seq, message@), i as int);
            assert(self.items() == insert_sorted(without(old_items, id), (seq, message@)));
        }
    }

    /// The message of the index entry at `k`.
    proof fn lemma_entry(&self, k: int)
        requires
            self.wf(),
            0 <= k < self.queue_tree@.len(),
        ensures
            self.items()[k].1.id == self.queue_tree@[k].id,
            self.items()[k] == (self.objects@[self.queue_tree@[k].id].0, self.objects@[self.queue_tree@[k].id].1@),
            self.objects@.contains_key(self.queue_tree@[k].id),
            has_id(self.items(), self.queue_tree@[k].id),
            pos_of(self.items(), self.queue_tree@[k].id) == k,
    {
        assert(self.entry_ok(k));
        let id = self.queue_tree@[k].id;
        assert(self.items()[k].1.id == id);
        let j = pos_of(self.items(), id);
        assert(ids_unique(self.items()));
    }

    /// Replacing the stored message of an entry by one with the same id and
    /// sort key changes one item and keeps the queue well formed.
    proof fn lemma_replace(old_db: &TreeDatabase, new_db: &TreeDatabase, k: int, m: Message)
        requires
            old_db.wf(),
            0 <= k < old_db.queue_tree@.len(),
            new_db.queue_tree == old_db.queue_tree,
            new_db.last_insert_id == old_db.last_insert_id,
            new_db.objects@ == old_db.objects@.insert(
                old_db.queue_tree@[k].id,
                (old_db.queue_tree@[k].seq, m),
            ),
            m.id == old_db.queue_tree@[k].id,
            m.offset == old_db.queue_tree@[k].offset,
            m.delay == old_db.queue_tree@[k].delay,
        ensures
            new_db.wf(),
            new_db.items() == old_db.items().update(k, (old_db.items()[k].0, m@)),
    {
        let oi = old_db.items();
        let ni = oi.update(k, (oi[k].0, m@));
        old_db.lemma_entry(k);
        assert(old_db.entry_ok(k));
        assert forall|a: int| 0 <= a < new_db.queue_tree@.len() implies #[trigger] new_db.entry_ok(a) by {
            assert(old_db.entry_ok(a));
        }
        assert(new_db.items() =~= ni) by {
            assert forall|a: int| 0 <= a < new_db.queue_tree@.len() implies new_db.items()[a] == ni[a] by {
                if a != k {
                    old_db.lemma_entry(a);
                }
            }
        }
        assert forall|x: u128| #[trigger] new_db.objects@.contains_key(x) implies exists|i: int|
            0 <= i < new_db.queue_tree@.len() && #[trigger] new_db.queue_tree@[i].id == x by {
            assert(old_db.objects@.contains_key(x));
        }
        assert forall|a: int, b: int| 0 <= a < b < ni.len() implies item_before(#[trigger] ni[a], #[trigger] ni[b]) by {
            assert(item_before(oi[a], oi[b]));
        }
        assert forall|a: int, b: int|
            0 <= a < ni.len() && 0 <= b < ni.len() && a != b implies #[trigger] ni[a].1.id != #[trigger] ni[b].1.id by {
            assert(oi[a].1.id != oi[b].1.id);
        }
    }

    /// Index position of the first message obtainable at `now`.
    fn first_obtainable_index(&self, now: i64) -> (r: Option<usize>)
        requires
            self.wf(),
        ensures
            match r {
                Some(j) => j < self.queue_tree@.len() && first_obtainable(self.items(), now, j as int),
                None => none_obtainable(self.items(), now),
            },
    {
        let mut i: usize = 0;
        while i < self.queue_tree.len()
            invariant
                self.wf(),
                i <= self.queue_tree@.len(),
                forall|k: int| 0 <= k < i ==> !(#[trigger] self.items()[k]).1.obtainable(now),
            decreases self.queue_tree@.len() - i,
        {
            let id = self.queue_tree[i].id;
            proof { self.lemma_entry(i as int); }
            match self.objects.get(&id) {
                Some(entry) => {
                    if entry.1.obtainable(now) {
                        return Some(i);
                    }
                },
                None => {},
            }
            i = i + 1;
        }
        None
    }

    /// The first message, in queue order, that is obtainable at `now`.
    pub fn peek(&self, now: i64) -> (r: Option<&Message>)
        requires
            self.wf(),
        ensures
            r is None <==> none_obtainable(self.items(), now),
            r is Some ==> {
                let j = pos_of(self.items(), r->0.id);
                &&& first_obtainable(self.items(), now, j)
                &&& r->0@ == self.items()[j].1
            },
    {
        match self.first_obtainable_index(now) {
            None => None,
            Some(j) => {
                let id = self.queue_tree[j].id;
                proof {
                    self.lemma_entry(j as int);
                    assert(!none_obtainable(self.items(), now));
                }
                match self.objects.get(&id) {
                    Some(entry) => Some(&entry.1),
                    None => None,
                }
            },
        }
    }

    /// Hands out the first message obtainable at `now`: it becomes in transit
    /// since `now` with one more try, and keeps its place in the queue.
    pub fn pop(&mut self, now: i64) -> (r: Option<&Message>)
        requires
            old(self).wf(),
        ensures
            final(self).wf(),
            final(self).next_seq() == old(self).next_seq(),
            r is None <==> none_obtainable(old(self).items(), now),
            final(self).items() == pop_items(old(self).items(), now),
            r is Some ==> {
                let j = pos_of(old(self).items(), r->0.id);
                &&& first_obtainable(old(self).items(), now, j)
                &&& final(self).items() == old(self).items().update(
                    j,
                    (old(self).items()[j].0, old(self).items()[j].1.reserved(now)),
                )
                &&& r->0@ == final(self).items()[j].1
            },
    {
        match self.first_obtainable_index(now) {
            None => None,
            Some(j) => {
                let id = self.queue_tree[j].id;
                let ghost old_db = *self;
                proof {
                    self.lemma_entry(j as int);
                    assert(self.entry_ok(j as int));
                }
                match self.objects.remove(&id) {
                    Some(entry) => {
                        let (seq, mut m) = entry;
                        m.reserve(now);
                        self.objects.insert(id, (seq, m));
                        proof {
                            assert(self.objects@ =~= old_db.objects@.insert(id, (seq, m)));
                            TreeDatabase::lemma_replace(&old_db, self, j as int, m);
                            self.lemma_entry(j as int);
                            lemma_first_pos(old_db.items(), now, j as int);
                        }
                        match self.objects.get(&id) {
                            Some(e) => Some(&e.1),
                            None => None,
                        }
                    },
                    None => None,
                }
            },
        }
    }

    /// Puts the in-transit message with `id` back in the queue, if it has
    /// tries left.
    pub fn requeue(&mut self, id: u128) -> (r: Option<()>)
        requires
            old(self).wf(),
        ensures
            final(self).wf(),
            final(self).next_seq() == old(self).next_seq(),
            r is Some <==> has_id(old(self).items(), id) && old(self).items()[pos_of(
                old(self).items(),
                id,
            )].1.requeueable(),
            final(self).items() == requeue_items(old(self).items(), id),
    {
        proof { self.lemma_ids(id); }
        match self.index_position(id) {
            None => None,
            Some(j) => {
                let ghost old_db = *self;
                proof {
                    self.lemma_entry(j as int);
                    assert(self.entry_ok(j as int));
                }
                match self.objects.remove(&id) {
                    Some(entry) => {
                        let (seq, mut m) = entry;
                        if m.requeueable() {
                            m.requeue();
                            self.objects.insert(id, (seq, m));
                            proof {
                                assert(self.objects@ =~= old_db.objects@.insert(id, (seq, m)));
                                TreeDatabase::lemma_replace(&old_db, self, j as int, m);
                            }
                            Some(())
                        } else {
                            self.objects.insert(id, (seq, m));
                            proof {
                                assert(self.objects@ =~= old_db.objects@);
                                assert(self.items() =~= old_db.items());
                                assert forall|a: int| 0 <= a < self.queue_tree@.len() implies #[trigger] self.entry_ok(a) by {
                                    assert(old_db.entry_ok(a));
                                }
                            }
                            None
                        }
                    },
                    None => None,
                }
            },
        }
    }

    /// Removes every message.
    pub fn clear(&mut self)
        requires
            old(self).wf(),
        ensures
            final(self).wf(),
            final(self).next_seq() == old(self).next_seq(),
            final(self).items() == Seq::<Item>::empty(),
    {
        self.objects.clear();
        self.queue_tree.clear();
        assert(self.items() =~= Seq::<Item>::empty());
    }

    /// Keeps the messages for which `predicate` holds, in their order, and
    /// removes the others.
    pub fn retain<F: Fn(&Message) -> bool>(&mut self, predicate: F)
        requires
            old(self).wf(),
            forall|m: &Message| call_requires(predicate, (m,)),
        ensures
            final(self).wf(),
            final(self).next_seq() == old(self).next_seq(),
            exists|keep: Seq<bool>|
                {
                    &&& keep.len() == old(self).items().len()
                    &&& forall|j: int| 0 <= j < keep.len() ==> decides(predicate, #[trigger] old(self).items()[j].1, keep[j])
                    &&& final(self).items() == select(old(self).items(), keep)
                },
    {
        let ghost old_items = self.items();
        let ghost n: int = old_items.len() as int;
        let ghost mut keep: Seq<bool> = Seq::empty();
        let ghost mut i: int = 0;
        let mut c: usize = 0;
        proof {
            assert(old_items.subrange(0, 0) =~= Seq::<Item>::empty());
            assert(self.items() =~= select(old_items.subrange(0, 0), keep) + old_items.subrange(0, n));
        }
        while c < self.queue_tree.len()
            invariant
                self.wf(),
                self.next_seq() == old(self).next_seq(),
                forall|m: &Message| call_requires(predicate, (m,)),
                0 <= i <= n,
                n == old_items.len(),
                keep.len() == i,
                forall|j: int| 0 <= j < i ==> decides(predicate, #[trigger] old_items[j].1, keep[j]),
                self.items() == select(old_items.subrange(0, i), keep) + old_items.subrange(i, n),
                c == select(old_items.subrange(0, i), keep).len(),
            decreases self.queue_tree@.len() - c,
        {
            let ghost sel = select(old_items.subrange(0, i), keep);
            proof {
                assert(self.items().len() == self.queue_tree@.len());
                assert(self.items()[c as int] == old_items[i]);
            }
            let id = self.queue_tree[c].id;
            proof { self.lemma_entry(c as int); }
            let decision = match self.get(id) {
                Some(m) => {
                    let b = predicate(m);
                    proof {
                        assert(m@ == old_items[i].1 && call_ensures(predicate, (m,), b));
                    }
                    b
                },
                None => true,
            };
            proof {
                assert(decides(predicate, old_items[i].1, decision));
                lemma_select_step(old_items, keep, i, decision);
            }
            if decision {
                c = c + 1;
                proof {
                    assert(self.items() =~= select(old_items.subrange(0, i + 1), keep.push(true))
                        + old_items.subrange(i + 1, n));
                }
            } else {
                let ghost before = self.items();
                let _ = self.delete(id);
                proof {
                    assert(before.remove(c as int) =~= sel + old_items.subrange(i + 1, n));
                }
            }
            proof {
                let k2 = keep.push(decision);
                assert forall|j: int| 0 <= j < i + 1 implies decides(predicate, #[trigger] old_items[j].1, k2[j]) by {
                    if j < i {
                        assert(k2[j] == keep[j]);
                    }
                }
                keep = k2;
                i = i + 1;
            }
        }
        proof {
            assert(self.items().len() == self.queue_tree@.len());
            assert(i == n);
            assert(old_items.subrange(0, n) =~= old_items);
            assert(old_items.subrange(n, n) =~= Seq::<Item>::empty());
            assert(self.items() =~= select(old_items, keep));
        }
    }

    /// Removes the messages that are garbage at `now`: expired reservations
    /// and messages without tries left.
    pub fn gc(&mut self, now: i64)
        requires
            old(self).wf(),
        ensures
            final(self).wf(),
            final(self).next_seq() == old(self).next_seq(),
            final(self).items() == select(old(self).items(), gc_keep(old(self).items(), now)),
    {
        let ghost old_items = self.items();
        let keep_alive = |m: &Message| -> (b: bool)
            ensures
                b == !m@.garbage(now),
        { !m.gc(now) };
        self.retain(keep_alive);
        proof {
            let keep = choose|keep: Seq<bool>|
                {
                    &&& keep.len() == old_items.len()
                    &&& forall|j: int| 0 <= j < keep.len() ==> decides(keep_alive, #[trigger] old_items[j].1, keep[j])
                    &&& self.items() == select(old_items, keep)
                };
            assert(keep =~= gc_keep(old_items, now)) by {
                assert forall|j: int| 0 <= j < keep.len() implies keep[j] == gc_keep(old_items, now)[j] by {
                    let b = keep[j];
                    assert(decides(keep_alive, old_items[j].1, b));
                }
            }
        }
    }

    /// Id of the first message, in queue order, for which `predicate` holds.
    pub fn position<F: Fn(&Message) -> bool>(&self, predicate: F) -> (r: Option<u128>)
        requires
            self.wf(),
            forall|m: &Message| call_requires(predicate, (m,)),
        ensures
            match r {
                Some(id) => {
                    let j = pos_of(self.items(), id);
                    &&& has_id(self.items(), id)
                    &&& decides(predicate, self.items()[j].1, true)
                    &&& forall|k: int| 0 <= k < j ==> decides(predicate, #[trigger] self.items()[k].1, false)
                },
                None => forall|k: int| 0 <= k < self.items().len() ==> decides(predicate, #[trigger] self.items()[k].1, false),
            },
    {
        let mut i: usize = 0;
        while i < self.queue_tree.len()
            invariant
                self.wf(),
                forall|m: &Message| call_requires(predicate, (m,)),
                i <= self.queue_tree@.len(),
                self.items().len() == self.queue_tree@.len(),
                forall|k: int| 0 <= k < i ==> decides(predicate, #[trigger] self.items()[k].1, false),
            decreases self.queue_tree@.len() - i,
        {
            let id = self.queue_tree[i].id;
            proof { self.lemma_entry(i as int); }
            match self.objects.get(&id) {
                Some(entry) => {
                    let b = predicate(&entry.1);
                    proof {
                        assert(entry.1@ == self.items()[i as int].1);
                        assert(call_ensures(predicate, (&entry.1,), b));
                        assert(decides(predicate, self.items()[i as int].1, b));
                    }
                    if b {
                        return Some(id);
                    }
                },
                None => {},
            }
            i = i + 1;
        }
        None
    }

    /// Removes the message with `id`; `None` when there is none.
    pub fn delete_pos(&mut self, id: u128) -> (r: Option<()>)
        requires
            old(self).wf(),
        ensures
            final(self).wf(),
            final(self).next_seq() == old(self).next_seq(),
            has_id(old(self).items(), id) ==> r is Some && final(self).items() == old(self).items().remove(
                pos_of(old(self).items(), id),
            ),
            !has_id(old(self).items(), id) ==> r is None && final(self).items() == old(self).items(),
    {
        match self.delete(id) {
            Some(_) => Some(()),
            None => None,
        }
    }

    /// The item at position `k` of the queue order.
    pub fn item_at(&self, k: usize) -> (r: (u64, &Message))
        requires
            self.wf(),
            k < self.items().len(),
        ensures
            (r.0, r.1@) == self.items()[k as int],
    {
        let id = self.queue_tree[k].id;
        proof { self.lemma_entry(k as int); }
        match self.objects.get(&id) {
            Some(entry) => (entry.0, &entry.1),
            None => vstd::pervasive::unreached(),
        }
    }

    /// A queue holding exactly `items` in this order, whose next push takes
    /// `next_seq`; `None` unless the items are in strictly increasing sort
    /// order, have distinct ids and sequence numbers below `next_seq`.
    pub fn restore(next_seq: u64, items: &Vec<(u64, Message)>) -> (r: Option<TreeDatabase>)
        ensures
            r is Some <==> valid_queue(QueueView { next_seq, items: items_view(items@) }),
            r is Some ==> r->0.wf() && r->0.state() == (QueueView { next_seq, items: items_view(items@) }),
    {
        let ghost all = items_view(items@);
        let mut db = TreeDatabase { last_insert_id: next_seq, objects: HashMap::new(), queue_tree: Vec::new() };
        let mut i: usize = 0;
        assert(db.items() =~= all.take(0));
        while i < items.len()
            invariant
                i <= items@.len(),
                all == items_view(items@),
                db.wf(),
                db.last_insert_id == next_seq,
                db.items() == all.take(i as int),
                db.queue_tree@.len() == i,
                forall|k: int| 0 <= k < i ==> (#[trigger] all[k]).0 < next_seq,
            decreases items@.len() - i,
        {
            let seq = items[i].0;
            let m = items[i].1.duplicate();
            let entry = IndexEntry { offset: m.offset, delay: m.delay, seq, id: m.id };
            if seq >= next_seq {
                return None;
            }
            let in_order = i == 0 || entry_before(&last_entry(&db.queue_tree), &entry);
            proof {
                assert(all[i as int] == (seq, m@));
                if i > 0 {
                    db.lemma_entry((i - 1) as int);
                    assert(db.entry_ok((i - 1) as int));
                    assert(db.queue_tree@.last() == db.queue_tree@[i - 1]);
                    assert(db.items()[i - 1] == all[i - 1]);
                    assert(in_order == item_before(all[i - 1], all[i as int]));
                }
            }
            if !in_order {
                return None;
            }
            if db.objects.contains_key(&m.id) {
                proof {
                    db.lemma_ids(m.id);
                    let j = pos_of(db.items(), m.id);
                    assert(all[j].1.id == all[i as int].1.id);
                }
                return None;
            }
            let ghost before = db;
            db.queue_tree.push(entry);
            db.objects.insert(m.id, (seq, m));
            proof {
                let x = all[i as int];
                assert forall|k: int| 0 <= k < db.queue_tree@.len() implies #[trigger] db.entry_ok(k) by {
                    if k < i {
                        assert(before.entry_ok(k));
                    }
                }
                assert(db.items() =~= all.take(i + 1)) by {
                    assert forall|k: int| 0 <= k < i + 1 implies db.items()[k] == all.take(i + 1)[k] by {
                        if k < i {
                            before.lemma_entry(k);
                        }
                    }
                }
                assert forall|x: u128| #[trigger] db.objects@.contains_key(x) implies exists|k: int|
                    0 <= k < db.queue_tree@.len() && #[trigger] db.queue_tree@[k].id == x by {
                    if x != m.id {
                        let k = choose|k: int| 0 <= k < before.queue_tree@.len() && #[trigger] before.queue_tree@[k].id == x;
                        assert(db.queue_tree@[k].id == x);
                    } else {
                        assert(db.queue_tree@[i as int].id == x);
                    }
                }
                let ni = db.items();
                if i > 0 {
                    before.lemma_entry((i - 1) as int);
                }
                assert forall|a: int, b: int| 0 <= a < b < ni.len() implies item_before(#[trigger] ni[a], #[trigger] ni[b]) by {
                    if b == i && a < i - 1 {
                        assert(item_before(ni[a], ni[i - 1]));
                    }
                }
                assert forall|a: int, b: int|
                    0 <= a < ni.len() && 0 <= b < ni.len() && a != b implies #[trigger] ni[a].1.id != #[trigger] ni[b].1.id by {
                    if a == i {
                        before.lemma_entry(b);
                    } else if b == i {
                        before.lemma_entry(a);
                    }
                }
            }
            i = i + 1;
        }
        assert(all.take(all.len() as int) =~= all);
        Some(db)
    }

    /// Store and index hold the same ids, in every well-formed state, and
    /// so after every operation.
    pub proof fn lemma_store_matches_index(&self)
        requires
            self.wf(),
        ensures
            self.store_ids() == self.index_ids(),
            forall|id: u128| #[trigger] self.store_ids().contains(id) <==> has_id(self.items(), id),
            self.store_ids().len() == self.items().len(),
    {
        assert forall|id: u128| #[trigger] self.store_ids().contains(id) <==> has_id(self.items(), id) by {
            self.lemma_ids(id);
        }
        self.lemma_store_count();
        assert forall|id: u128| self.store_ids().contains(id) <==> self.index_ids().contains(id) by {
            if self.index_ids().contains(id) {
                let i = choose|i: int| 0 <= i < self.queue_tree@.len() && #[trigger] self.queue_tree@[i].id == id;
                assert(self.entry_ok(i));
            }
        }
        assert(self.store_ids() =~= self.index_ids());
    }

    /// The store holds as many entries as the index.
    proof fn lemma_store_count(&self)
        requires
            self.wf(),
        ensures
            self.objects@.dom().len() == self.queue_tree@.len(),
    {
        let ids = self.queue_tree@.map_values(|e: IndexEntry| e.id);
        assert(ids.no_duplicates()) by {
            assert forall|i: int, j: int| 0 <= i < ids.len() && 0 <= j < ids.len() && i != j implies ids[i] != ids[j] by {
                self.lemma_entry(i);
                self.lemma_entry(j);
            }
        }
        ids.unique_seq_to_set();
        assert forall|id: u128| self.objects@.dom().contains(id) <==> #[trigger] ids.to_set().contains(id) by {
            if self.objects@.contains_key(id) {
                let i = choose|i: int| 0 <= i < self.queue_tree@.len() && #[trigger] self.queue_tree@[i].id == id;
                assert(ids[i] == id);
            }
            if ids.to_set().contains(id) {
                let i = choose|i: int| 0 <= i < ids.len() && ids[i] == id;
                assert(self.entry_ok(i));
            }
        }
        assert(self.objects@.dom() =~= ids.to_set());
    }

    /// Marks the message with `id` in transit since `now` with one more
    /// try, whatever its state; it keeps its place.
    pub fn reserve(&mut self, id: u128, now: i64) -> (r: Option<()>)
        requires
            old(self).wf(),
        ensures
            final(self).wf(),
            final(self).next_seq() == old(self).next_seq(),
            r is Some <==> has_id(old(self).items(), id),
            has_id(old(self).items(), id) ==> {
                let j = pos_of(old(self).items(), id);
                final(self).items() == old(self).items().update(
                    j,
                    (old(self).items()[j].0, old(self).items()[j].1.reserved(now)),
                )
            },
            !has_id(old(self).items(), id) ==> final(self).items() == old(self).items(),
    {
        proof { self.lemma_ids(id); }
        match self.index_position(id) {
            None => None,
            Some(j) => {
                let ghost old_db = *self;
                proof {
                    self.lemma_entry(j as int);
                    assert(self.entry_ok(j as int));
                }
                match self.objects.remove(&id) {
                    Some(entry) => {
                        let (seq, mut m) = entry;
                        m.reserve(now);
                        self.objects.insert(id, (seq, m));
                        proof {
                            assert(self.objects@ =~= old_db.objects@.insert(id, (seq, m)));
                            TreeDatabase::lemma_replace(&old_db, self, j as int, m);
                        }
                        Some(())
                    },
                    None => None,
                }
            },
        }
    }

    /// Number of entries in the store.
    pub fn store_len(&self) -> (r: usize)
        requires
            self.wf(),
        ensures
            r == self.store_ids().len(),
            r == self.items().len(),
    {
        proof { self.lemma_store_count(); }
        self.objects.len()
    }

    /// Number of entries in the secondary index.
    pub fn index_len(&self) -> (r: usize)
        requires
            self.wf(),
        ensures
            r == self.items().len(),
    {
        self.queue_tree.len()
    }

    /// Relates the store's keys to the items' ids.
    proof fn lemma_ids(&self, id: u128)
        requires
            self.wf(),
        ensures
            has_id(self.items(), id) <==> self.objects@.contains_key(id),
            has_id(self.items(), id) ==> {
                let j = pos_of(self.items(), id);
                &&& 0 <= j < self.queue_tree@.len()
                &&& self.queue_tree@[j].id == id
                &&& self.items()[j] == (self.objects@[id].0, self.objects@[id].1@)
            },
    {
        if self.objects@.contains_key(id) {
            let i = choose|i: int| 0 <= i < self.queue_tree@.len() && #[trigger] self.queue_tree@[i].id == id;
            assert(self.entry_ok(i));
            assert(self.items()[i].1.id == id);
        }
        if has_id(self.items(), id) {
            let j = pos_of(self.items(), id);
            assert(self.entry_ok(j));
        }
    }
}

} // verus!
