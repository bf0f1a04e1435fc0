use vstd::prelude::*;
use crate::builder::MessageBuilder;
use crate::message::{Message, MessageState, MessageView};

verus! {

/// A producer's push: the body, and the attributes it sets.
pub struct PushRequest {
    pub body: String,
    pub offset: Option<i32>,
    pub max_tries: Option<u32>,
    pub timeout: Option<u32>,
    /// Seconds from now before the message can be obtained.
    pub delay: Option<i64>,
}

/// `now + seconds`, held within the range of `i64`.
pub open spec fn after(now: i64, seconds: i64) -> i64 {
    if now + seconds > i64::MAX {
        i64::MAX
    } else if now + seconds < i64::MIN {
        i64::MIN
    } else {
        (now + seconds) as i64
    }
}

fn seconds_after(now: i64, seconds: i64) -> (r: i64)
    ensures
        r == after(now, seconds),
{
    let t = now as i128 + seconds as i128;
    if t > i64::MAX as i128 {
        i64::MAX
    } else if t < i64::MIN as i128 {
        i64::MIN
    } else {
        t as i64
    }
}

/// The message a push request describes, at epoch second `now`: absent
/// attributes take the builder's defaults, and a delay counts from `now`.
pub fn apply_builder(request: &PushRequest, now: i64) -> (r: Message)
    ensures
        r@ == (MessageView {
            id: r.id,
            body: vstd::utf8::encode_utf8(request.body@),
            offset: match request.offset {
                Some(o) => o,
                None => 0,
            },
            max_tries: match request.max_tries {
                Some(t) => t,
                None => 1,
            },
            timeout: match request.timeout {
                Some(t) => t,
                None => 30,
            },
            delay: match request.delay {
                Some(d) => Some(after(now, d)),
                None => None,
            },
            state: MessageState::Available,
            tries: 0,
        }),
{
    let mut builder = MessageBuilder::default().body(request.body.as_str().as_bytes());
    if let Some(offset) = request.offset {
        builder = builder.offset(offset);
    }
    if let Some(max_tries) = request.max_tries {
        builder = builder.max_tries(max_tries);
    }
    if let Some(timeout) = request.timeout {
        builder = builder.timeout(timeout);
    }
    if let Some(delay) = request.delay {
        let at = seconds_after(now, delay);
        builder = builder.delay(|_offset: i32| -> (r: i64)
            ensures
                r == at,
            { at });
    }
    match builder.compose() {
        Ok(m) => m,
        Err(_) => vstd::pervasive::unreached(),
    }
}

} // verus!
