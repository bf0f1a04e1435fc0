use vstd::prelude::*;
use crate::codec::str_eq;
use crate::config::AccessKey;

verus! {

/// Why a request was refused.
#[derive(Clone, Copy, Debug, PartialEq, Eq, Structural)]
pub enum AccessError {
    AccessDenied,
    AuthorizationHeaderNotFound,
    IncorrectKeyHeader,
}

impl AccessError {
    /// The HTTP status this error answers with.
    pub fn status_code(&self) -> (r: u16)
        ensures
            r == match self {
                AccessError::AccessDenied => 401u16,
                _ => 400u16,
            },
    {
        match self {
            AccessError::AccessDenied => 401,
            AccessError::AuthorizationHeaderNotFound | AccessError::IncorrectKeyHeader => 400,
        }
    }

    pub fn message(&self) -> (r: &'static str) {
        match self {
            AccessError::AccessDenied => "Access denied",
            AccessError::AuthorizationHeaderNotFound => "Authorization header not found",
            AccessError::IncorrectKeyHeader => "Incorrect key header",
        }
    }
}

/// A key with the queues it opens, as values.
pub type KeyView = (Seq<char>, Seq<Seq<char>>);

pub open spec fn keys_view(keys: Seq<AccessKey>) -> Seq<KeyView> {
    keys.map_values(|k: AccessKey| (k.key@, k.queues@.map_values(|q: String| q@)))
}

/// Does some key equal to `key` open `queue`.
pub open spec fn opens(keys: Seq<KeyView>, key: Seq<char>, queue: Seq<char>) -> bool {
    exists|i: int| 0 <= i < keys.len() && (#[trigger] keys[i]).0 == key && keys[i].1.contains(queue)
}

/// The header a request carried for authorization.
pub enum KeyHeader<'a> {
    Missing,
    /// Present but not readable as text.
    Unreadable,
    Value(&'a str),
}

/// The access rule of a request: with access keys configured, a request
/// that names a queue must carry a key that opens it.
pub open spec fn access_outcome(
    keys: Option<Seq<KeyView>>,
    queue: Option<Seq<char>>,
    header: KeyHeader,
) -> Result<(), AccessError> {
    match (keys, queue) {
        (Some(ks), Some(q)) => match header {
            KeyHeader::Missing => Err(AccessError::AuthorizationHeaderNotFound),
            KeyHeader::Unreadable => Err(AccessError::IncorrectKeyHeader),
            KeyHeader::Value(k) => if opens(ks, k@, q) {
                Ok(())
            } else {
                Err(AccessError::AccessDenied)
            },
        },
        _ => Ok(()),
    }
}

/// The access keys of a server, if it has any.
pub struct Access {
    keys: Option<Vec<AccessKey>>,
}

impl Access {
    pub fn new(keys: Option<Vec<AccessKey>>) -> (r: Access)
        ensures
            r.keys_spec() == match keys {
                Some(k) => Some(keys_view(k@)),
                None => None::<Seq<KeyView>>,
            },
    {
        Access { keys }
    }

    pub closed spec fn keys_spec(&self) -> Option<Seq<KeyView>> {
        match self.keys {
            Some(k) => Some(keys_view(k@)),
            None => None,
        }
    }

    /// The checker placed in front of `service`.
    pub fn new_transform<S>(self, service: S) -> (r: AccessMiddleware<S>)
        ensures
            r.keys_spec() == self.keys_spec(),
            r.service_spec() == service,
    {
        AccessMiddleware { service, keys: self.keys }
    }
}

/// Checks requests against the access keys before they reach `service`.
pub struct AccessMiddleware<S> {
    pub service: S,
    keys: Option<Vec<AccessKey>>,
}

impl<S> AccessMiddleware<S> {
    pub closed spec fn service_spec(&self) -> S {
        self.service
    }

    pub closed spec fn keys_spec(&self) -> Option<Seq<KeyView>> {
        match self.keys {
            Some(k) => Some(keys_view(k@)),
            None => None,
        }
    }

    pub fn has_access_keys(&self) -> (r: bool)
        ensures
            r == self.keys_spec() is Some,
    {
        self.keys.is_some()
    }

    /// Does `key` open `queue`.
    pub fn check_access(&self, key: &str, queue: &str) -> (r: bool)
        requires
            self.keys_spec() is Some,
        ensures
            r == opens(self.keys_spec()->0, key@, queue@),
    {
        let keys = match &self.keys {
            Some(k) => k,
            None => vstd::pervasive::unreached(),
        };
        let ghost kv = keys_view(keys@);
        let mut i: usize = 0;
        while i < keys.len()
            invariant
                i <= keys@.len(),
                kv == keys_view(keys@),
                self.keys_spec() == Some(kv),
                forall|j: int| 0 <= j < i ==> !((#[trigger] kv[j]).0 == key@ && kv[j].1.contains(queue@)),
            decreases keys@.len() - i,
        {
            if str_eq(keys[i].key.as_str(), key) {
                let qs = &keys[i].queues;
                let mut k: usize = 0;
                while k < qs.len()
                    invariant
                        k <= qs@.len(),
                        qs == keys@[i as int].queues,
                        kv == keys_view(keys@),
                        self.keys_spec() == Some(kv),
                        i < keys@.len(),
                        kv[i as int].0 == key@,
                        forall|m: int| 0 <= m < k ==> (#[trigger] qs@[m])@ != queue@,
                    decreases qs@.len() - k,
                {
                    if str_eq(qs[k].as_str(), queue) {
                        proof {
                            assert(kv[i as int].1[k as int] == queue@);
                            assert(kv[i as int].1.contains(queue@));
                        }
                        return true;
                    }
                    k = k + 1;
                }
                proof {
                    assert(!kv[i as int].1.contains(queue@)) by {
                        if kv[i as int].1.contains(queue@) {
                            let m = choose|m: int| 0 <= m < kv[i as int].1.len() && kv[i as int].1[m] == queue@;
                            assert(qs@[m]@ == queue@);
                        }
                    }
                }
            }
            i = i + 1;
        }
        false
    }

    /// Decides a request from the queue it names and its key header.
    pub fn parse_request(&self, queue: Option<&str>, header: KeyHeader) -> (r: Result<(), AccessError>)
        ensures
            r == access_outcome(self.keys_spec(), match queue {
                Some(q) => Some(q@),
                None => None::<Seq<char>>,
            }, header),
    {
        if self.has_access_keys() {
            match queue {
                Some(q) => match header {
                    KeyHeader::Missing => Err(AccessError::AuthorizationHeaderNotFound),
                    KeyHeader::Unreadable => Err(AccessError::IncorrectKeyHeader),
                    KeyHeader::Value(k) => if self.check_access(k, q) {
                        Ok(())
                    } else {
                        Err(AccessError::AccessDenied)
                    },
                },
                None => Ok(()),
            }
        } else {
            Ok(())
        }
    }
}

} // verus!
