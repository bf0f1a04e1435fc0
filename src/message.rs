use vstd::prelude::*;

verus! {

/// Delivery state of a message.
#[derive(Clone, Copy, Debug, PartialEq, Eq, Structural)]
pub enum MessageState {
    /// Waiting in the queue.
    Available,
    /// Handed to a consumer at the given epoch second.
    InTransit(i64),
}

/// A queued message.
///
/// `id` is assigned when the message is composed and never changes; the
/// queue engine keys its store by it.
#[derive(Clone, Debug)]
pub struct Message {
    pub id: u128,
    pub body: Vec<u8>,
    pub offset: i32,
    pub max_tries: u32,
    pub timeout: u32,
    pub delay: Option<i64>,
    pub state: MessageState,
    pub tries: u32,
}

/// A new vector holding the bytes of `s`.
pub fn copy_bytes(s: &[u8]) -> (r: Vec<u8>)
    ensures
        r@ == s@,
{
    let mut r: Vec<u8> = Vec::with_capacity(s.len());
    let mut i: usize = 0;
    while i < s.len()
        invariant
            i <= s@.len(),
            r@ == s@.subrange(0, i as int),
        decreases s@.len() - i,
    {
        r.push(s[i]);
        i = i + 1;
    }
    assert(r@ == s@);
    r
}

/// What a message holds, as values.
pub struct MessageView {
    pub id: u128,
    pub body: Seq<u8>,
    pub offset: i32,
    pub max_tries: u32,
    pub timeout: u32,
    pub delay: Option<i64>,
    pub state: MessageState,
    pub tries: u32,
}

impl MessageView {
    /// The message is waiting and, when delayed, its delay has passed.
    pub open spec fn obtainable(self, now: i64) -> bool {
        &&& self.state == MessageState::Available
        &&& match self.delay {
            Some(d) => now >= d,
            None => true,
        }
    }

    pub open spec fn has_tries(self) -> bool {
        self.tries < self.max_tries
    }

    /// In transit for at least `timeout` seconds.
    pub open spec fn expired(self, now: i64) -> bool {
        match self.state {
            MessageState::InTransit(at) => now >= at + self.timeout,
            MessageState::Available => false,
        }
    }

    /// What garbage collection removes: an expired reservation, or a message
    /// that has used up its tries.
    pub open spec fn garbage(self, now: i64) -> bool {
        self.expired(now) || !self.has_tries()
    }

    pub open spec fn requeueable(self) -> bool {
        self.state is InTransit && self.has_tries()
    }

    pub open spec fn reservable(self) -> bool {
        self.state == MessageState::Available && self.has_tries()
    }

    /// The message after being handed out at `now`: in transit since `now`,
    /// one more try counted (the count stops at `u32::MAX`).
    pub open spec fn reserved(self, now: i64) -> MessageView {
        MessageView {
            state: MessageState::InTransit(now),
            tries: if self.tries < u32::MAX { (self.tries + 1) as u32 } else { self.tries },
            ..self
        }
    }

    /// The message put back into the queue.
    pub open spec fn requeued(self) -> MessageView {
        MessageView { state: MessageState::Available, ..self }
    }
}

impl View for Message {
    type V = MessageView;

    open spec fn view(&self) -> MessageView {
        MessageView {
            id: self.id,
            body: self.body@,
            offset: self.offset,
            max_tries: self.max_tries,
            timeout: self.timeout,
            delay: self.delay,
            state: self.state,
            tries: self.tries,
        }
    }
}

impl Message {
    /// An equal message, body included.
    pub fn duplicate(&self) -> (r: Message)
        ensures
            r@ == self@,
    {
        let body = copy_bytes(self.body.as_slice());
        Message { body, ..*self }
    }

    /// A fresh message with the given id and attributes, available, never tried.
    pub fn new(
        id: u128,
        body: &[u8],
        delay: Option<i64>,
        offset: i32,
        max_tries: u32,
        timeout: u32,
    ) -> (r: Message)
        ensures
            r@ == (MessageView {
                id,
                body: body@,
                offset,
                max_tries,
                timeout,
                delay,
                state: MessageState::Available,
                tries: 0,
            }),
    {
        Message {
            id,
            body: copy_bytes(body),
            offset,
            max_tries,
            timeout,
            delay,
            state: MessageState::Available,
            tries: 0,
        }
    }
}

/// Whether a message can be handed out, and whether it is garbage.
pub trait Dispatchable {
    spec fn obtainable_at(&self, now: i64) -> bool;

    spec fn garbage_at(&self, now: i64) -> bool;

    /// Can the message be handed out at `now`.
    fn obtainable(&self, now: i64) -> (r: bool)
        ensures
            r == self.obtainable_at(now),
    ;

    /// Should garbage collection at `now` remove the message.
    fn gc(&self, now: i64) -> (r: bool)
        ensures
            r == self.garbage_at(now),
    ;
}

/// Transitions between the available and in-transit states.
pub trait Status: Dispatchable + Sized {
    /// Does the value `b` hold what `a` holds after `requeue`.
    spec fn requeued_from(a: Self, b: Self) -> bool;

    /// Does the value `b` hold what `a` holds after `reserve(now)`.
    spec fn reserved_from(a: Self, b: Self, now: i64) -> bool;

    spec fn requeueable_at(&self) -> bool;

    spec fn reservable_at(&self) -> bool;

    spec fn has_tries_at(&self) -> bool;

    /// Put the message back into the available state.
    fn requeue(&mut self)
        ensures
            Self::requeued_from(*old(self), *final(self)),
    ;

    /// Mark the message in transit since `now` and count one more try.
    fn reserve(&mut self, now: i64)
        ensures
            Self::reserved_from(*old(self), *final(self), now),
    ;

    fn requeueable(&self) -> (r: bool)
        ensures
            r == self.requeueable_at(),
    ;

    fn reservable(&self) -> (r: bool)
        ensures
            r == self.reservable_at(),
    ;

    fn has_tries(&self) -> (r: bool)
        ensures
            r == self.has_tries_at(),
    ;
}

impl Dispatchable for Message {
    open spec fn obtainable_at(&self, now: i64) -> bool {
        self@.obtainable(now)
    }

    open spec fn garbage_at(&self, now: i64) -> bool {
        self@.garbage(now)
    }

    fn obtainable(&self, now: i64) -> (r: bool) {
        match self.state {
            MessageState::Available => match self.delay {
                Some(d) => now >= d,
                None => true,
            },
            MessageState::InTransit(_) => false,
        }
    }

    fn gc(&self, now: i64) -> (r: bool) {
        let expired = match self.state {
            MessageState::InTransit(at) => (now as i128) >= (at as i128) + (self.timeout as i128),
            MessageState::Available => false,
        };
        expired || self.tries >= self.max_tries
    }
}

impl Status for Message {
    open spec fn requeued_from(a: Message, b: Message) -> bool {
        b@ == a@.requeued()
    }

    open spec fn reserved_from(a: Message, b: Message, now: i64) -> bool {
        b@ == a@.reserved(now)
    }

    open spec fn requeueable_at(&self) -> bool {
        self@.requeueable()
    }

    open spec fn reservable_at(&self) -> bool {
        self@.reservable()
    }

    open spec fn has_tries_at(&self) -> bool {
        self@.has_tries()
    }

    fn requeue(&mut self) {
        self.state = MessageState::Available;
    }

    fn reserve(&mut self, now: i64) {
        self.state = MessageState::InTransit(now);
        if self.tries < u32::MAX {
            self.tries = self.tries + 1;
        }
    }

    fn requeueable(&self) -> (r: bool) {
        match self.state {
            MessageState::InTransit(_) => self.tries < self.max_tries,
            MessageState::Available => false,
        }
    }

    fn reservable(&self) -> (r: bool) {
        match self.state {
            MessageState::Available => self.tries < self.max_tries,
            MessageState::InTransit(_) => false,
        }
    }

    fn has_tries(&self) -> (r: bool) {
        self.tries < self.max_tries
    }
}

} // verus!
