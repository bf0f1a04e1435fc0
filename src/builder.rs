use vstd::prelude::*;
use crate::message::{Message, MessageState, MessageView};

verus! {

/// Why a message could not be composed.
#[derive(Clone, Copy, Debug, PartialEq, Eq, Structural)]
pub enum BuilderError {
    BodyNotProvided,
}

impl BuilderError {
    pub fn message(&self) -> (r: &'static str) {
        "no body provided for builder"
    }
}

/// Collects the attributes of a message before it is composed.
pub struct MessageBuilder<'a> {
    body: Option<&'a [u8]>,
    offset: i32,
    max_tries: u32,
    timeout: u32,
    delay: Option<i64>,
}

/// What a builder holds, as values.
pub struct BuilderView {
    pub body: Option<Seq<u8>>,
    pub offset: i32,
    pub max_tries: u32,
    pub timeout: u32,
    pub delay: Option<i64>,
}

impl<'a> View for MessageBuilder<'a> {
    type V = BuilderView;

    closed spec fn view(&self) -> BuilderView {
        BuilderView {
            body: match self.body {
                Some(b) => Some(b@),
                None => None,
            },
            offset: self.offset,
            max_tries: self.max_tries,
            timeout: self.timeout,
            delay: self.delay,
        }
    }
}

/// Uuid v4 as a plain integer.
///
/// Relies on `uuid::Uuid::new_v4` for a random identifier and on
/// `Uuid::as_u128` to read it as an integer; nothing is promised of the value.
#[verifier::external_body]
fn fresh_id() -> (r: u128) {
    uuid::Uuid::new_v4().as_u128()
}

impl<'a> Default for MessageBuilder<'a> {
    /// No body, offset 0, one try, a 30 second timeout, no delay.
    fn default() -> (r: Self)
        ensures
            r@ == (BuilderView { body: None, offset: 0, max_tries: 1, timeout: 30, delay: None }),
    {
        MessageBuilder { body: None, offset: 0, max_tries: 1, timeout: 30, delay: None }
    }
}

impl<'a> MessageBuilder<'a> {
    pub fn body(self, body: &'a [u8]) -> (r: Self)
        ensures
            r@ == (BuilderView { body: Some(body@), ..self@ }),
    {
        MessageBuilder { body: Some(body), ..self }
    }

    pub fn offset(self, offset: i32) -> (r: Self)
        ensures
            r@ == (BuilderView { offset, ..self@ }),
    {
        MessageBuilder { offset, ..self }
    }

    pub fn max_tries(self, max_tries: u32) -> (r: Self)
        ensures
            r@ == (BuilderView { max_tries, ..self@ }),
    {
        MessageBuilder { max_tries, ..self }
    }

    pub fn timeout(self, timeout: u32) -> (r: Self)
        ensures
            r@ == (BuilderView { timeout, ..self@ }),
    {
        MessageBuilder { timeout, ..self }
    }

    /// Sets the delay to what `delay` computes from the offset.
    pub fn delay<F: FnOnce(i32) -> i64>(self, delay: F) -> (r: Self)
        requires
            call_requires(delay, (self@.offset,)),
        ensures
            exists|d: i64|
                call_ensures(delay, (self@.offset,), d) && r@ == (BuilderView {
                    delay: Some(d),
                    ..self@
                }),
    {
        let d = delay(self.offset);
        MessageBuilder { delay: Some(d), ..self }
    }

    /// The message these attributes describe, with the given id.
    pub fn compose_with_id(self, id: u128) -> (r: Result<Message, BuilderError>)
        ensures
            match self@.body {
                Some(b) => r is Ok && r->Ok_0@ == (MessageView {
                    id,
                    body: b,
                    offset: self@.offset,
                    max_tries: self@.max_tries,
                    timeout: self@.timeout,
                    delay: self@.delay,
                    state: MessageState::Available,
                    tries: 0,
                }),
                None => r == Err::<Message, BuilderError>(BuilderError::BodyNotProvided),
            },
    {
        match self.body {
            Some(body) => Ok(
                Message::new(id, body, self.delay, self.offset, self.max_tries, self.timeout),
            ),
            None => Err(BuilderError::BodyNotProvided),
        }
    }

    /// The message these attributes describe, under a fresh random id.
    pub fn compose(self) -> (r: Result<Message, BuilderError>)
        ensures
            match self@.body {
                Some(b) => r is Ok && r->Ok_0@ == (MessageView {
                    id: r->Ok_0.id,
                    body: b,
                    offset: self@.offset,
                    max_tries: self@.max_tries,
                    timeout: self@.timeout,
                    delay: self@.delay,
                    state: MessageState::Available,
                    tries: 0,
                }),
                None => r == Err::<Message, BuilderError>(BuilderError::BodyNotProvided),
            },
    {
        if self.body.is_none() {
            return Err(BuilderError::BodyNotProvided);
        }
        let id = fresh_id();
        self.compose_with_id(id)
    }
}

} // verus!
