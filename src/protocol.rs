use vstd::prelude::*;
use crate::event::Event;
use crate::storage::{entries_view, LogEntry};
use crate::codec::{
    bytes_enc, entry_enc, get_entries, get_pairs, get_string, holds_at, lemma_holds_concat, list_enc, names_view,
    pair_enc, put_bytes, put_entries, put_pairs, put_str, str_enc, NamedIndex,
};

verus! {

/// What a primary asks a replica.
pub enum PrimaryRequest {
    Ping,
    /// "What is your last applied index per queue?"
    AskIndex,
    /// Apply these entries to the named queue.
    SendRange(String, Vec<(u64, Event)>),
}

/// What a replica answers.
pub enum ReplicaRequest {
    Pong,
    /// Each hosted queue's name with its last applied index.
    RecvIndex(Vec<(String, u64)>),
    RecvRange,
    QueueNotFound(String),
}

/// One frame of the replication protocol.
pub enum Request {
    Primary(PrimaryRequest),
    Replica(ReplicaRequest),
}

pub enum PrimaryView {
    Ping,
    AskIndex,
    SendRange(Seq<char>, Seq<LogEntry>),
}

pub enum ReplicaView {
    Pong,
    RecvIndex(Seq<NamedIndex>),
    RecvRange,
    QueueNotFound(Seq<char>),
}

pub enum RequestView {
    Primary(PrimaryView),
    Replica(ReplicaView),
}

impl View for PrimaryRequest {
    type V = PrimaryView;

    open spec fn view(&self) -> PrimaryView {
        match self {
            PrimaryRequest::Ping => PrimaryView::Ping,
            PrimaryRequest::AskIndex => PrimaryView::AskIndex,
            PrimaryRequest::SendRange(n, es) => PrimaryView::SendRange(n@, entries_view(es@)),
        }
    }
}

impl View for ReplicaRequest {
    type V = ReplicaView;

    open spec fn view(&self) -> ReplicaView {
        match self {
            ReplicaRequest::Pong => ReplicaView::Pong,
            ReplicaRequest::RecvIndex(ps) => ReplicaView::RecvIndex(names_view(ps@)),
            ReplicaRequest::RecvRange => ReplicaView::RecvRange,
            ReplicaRequest::QueueNotFound(n) => ReplicaView::QueueNotFound(n@),
        }
    }
}

impl View for Request {
    type V = RequestView;

    open spec fn view(&self) -> RequestView {
        match self {
            Request::Primary(p) => RequestView::Primary(p@),
            Request::Replica(r) => RequestView::Replica(r@),
        }
    }
}

/// Why a replication exchange failed, as the primary sees it.
#[derive(Clone, Copy, Debug, PartialEq, Eq, Structural)]
pub enum PrimaryError {
    ConfigNotFound,
    SocketError,
    EmptySocket,
    CodecError,
    ProtocolMismatch,
}

/// Why serving the primary failed, as the replica sees it.
#[derive(Clone, Copy, Debug, PartialEq, Eq, Structural)]
pub enum ReplicaError {
    ReplicaConfigNotFound,
    SocketError,
    EmptySocket,
    CodecError,
    ProtocolMismatch,
}

impl PrimaryError {
    pub fn message(&self) -> (r: &'static str) {
        match self {
            PrimaryError::ConfigNotFound => "Unable to find primary node config",
            PrimaryError::SocketError => "TCP socket error",
            PrimaryError::EmptySocket => "Empty TCP socket",
            PrimaryError::CodecError => "Socket codec error",
            PrimaryError::ProtocolMismatch => "Protocol mismatch",
        }
    }
}

impl ReplicaError {
    pub fn message(&self) -> (r: &'static str) {
        match self {
            ReplicaError::ReplicaConfigNotFound => "Unable to find replica node config",
            ReplicaError::SocketError => "TCP socket error",
            ReplicaError::EmptySocket => "Empty TCP socket",
            ReplicaError::CodecError => "Socket codec error",
            ReplicaError::ProtocolMismatch => "Protocol mismatch",
        }
    }
}

/// What reading one frame from the peer gave.
pub enum Received {
    /// The peer closed the connection.
    Closed,
    /// A frame arrived that does not decode.
    Malformed,
    Frame(Request),
}

/// Does `got` answer `sent`.
pub open spec fn answers(sent: PrimaryView, got: ReplicaView) -> bool {
    match sent {
        PrimaryView::Ping => got is Pong,
        PrimaryView::AskIndex => got is RecvIndex,
        PrimaryView::SendRange(_, _) => got is RecvRange || got is QueueNotFound,
    }
}

/// The outcome of an exchange in which the primary sent `sent`: the reply,
/// when it is a replica frame of the variant that answers `sent`; otherwise
/// the error that ends the session.
pub open spec fn exchange_outcome(sent: PrimaryView, received: Received) -> Result<ReplicaView, PrimaryError> {
    match received {
        Received::Closed => Err(PrimaryError::EmptySocket),
        Received::Malformed => Err(PrimaryError::CodecError),
        Received::Frame(Request::Replica(r)) => if answers(sent, r@) {
            Ok(r@)
        } else {
            Err(PrimaryError::ProtocolMismatch)
        },
        Received::Frame(Request::Primary(_)) => Err(PrimaryError::ProtocolMismatch),
    }
}

/// Checks the frame that came back for `sent`.
pub fn check_response(sent: &PrimaryRequest, received: Received) -> (r: Result<ReplicaRequest, PrimaryError>)
    ensures
        match (r, exchange_outcome(sent@, received)) {
            (Ok(got), Ok(v)) => got@ == v,
            (Err(e), Err(f)) => e == f,
            _ => false,
        },
{
    match received {
        Received::Closed => Err(PrimaryError::EmptySocket),
        Received::Malformed => Err(PrimaryError::CodecError),
        Received::Frame(Request::Primary(_)) => Err(PrimaryError::ProtocolMismatch),
        Received::Frame(Request::Replica(got)) => {
            let ok = match (sent, &got) {
                (PrimaryRequest::Ping, ReplicaRequest::Pong) => true,
                (PrimaryRequest::AskIndex, ReplicaRequest::RecvIndex(_)) => true,
                (PrimaryRequest::SendRange(_, _), ReplicaRequest::RecvRange) => true,
                (PrimaryRequest::SendRange(_, _), ReplicaRequest::QueueNotFound(_)) => true,
                _ => false,
            };
            if ok {
                Ok(got)
            } else {
                Err(PrimaryError::ProtocolMismatch)
            }
        },
    }
}

/// The primary's ping: succeeds on `Pong` alone.
pub fn ping_reply(received: Received) -> (r: Result<(), PrimaryError>)
    ensures
        match exchange_outcome(PrimaryView::Ping, received) {
            Ok(_) => r is Ok,
            Err(e) => r == Err::<(), PrimaryError>(e),
        },
{
    match check_response(&PrimaryRequest::Ping, received) {
        Ok(_) => Ok(()),
        Err(e) => Err(e),
    }
}

/// The replica's indices, from its answer to `AskIndex`.
pub fn index_reply(received: Received) -> (r: Result<Vec<(String, u64)>, PrimaryError>)
    ensures
        match exchange_outcome(PrimaryView::AskIndex, received) {
            Ok(v) => r is Ok && v == ReplicaView::RecvIndex(names_view(r->Ok_0@)),
            Err(e) => r == Err::<Vec<(String, u64)>, PrimaryError>(e),
        },
{
    match check_response(&PrimaryRequest::AskIndex, received) {
        Ok(ReplicaRequest::RecvIndex(pairs)) => Ok(pairs),
        Ok(_) => Err(PrimaryError::ProtocolMismatch),
        Err(e) => Err(e),
    }
}

/// The replica's answer to a range: `true` when it applied the range,
/// `false` when it does not host the queue.
pub fn range_reply(queue: &String, received: Received) -> (r: Result<bool, PrimaryError>)
    ensures
        match exchange_outcome(PrimaryView::SendRange(queue@, Seq::empty()), received) {
            Ok(v) => r == Ok::<bool, PrimaryError>(v is RecvRange),
            Err(e) => r == Err::<bool, PrimaryError>(e),
        },
{
    let sent = PrimaryRequest::SendRange(String::new(), Vec::new());
    match check_response(&sent, received) {
        Ok(ReplicaRequest::RecvRange) => Ok(true),
        Ok(ReplicaRequest::QueueNotFound(_)) => Ok(false),
        Ok(_) => Err(PrimaryError::ProtocolMismatch),
        Err(e) => Err(e),
    }
}

/// What the replica makes of a frame from the primary: the request to
/// answer, `None` when the primary closed the session, or the error that
/// ends it.
pub fn expect_primary(received: Received) -> (r: Result<Option<PrimaryRequest>, ReplicaError>)
    ensures
        match received {
            Received::Closed => r == Ok::<Option<PrimaryRequest>, ReplicaError>(None),
            Received::Malformed => r == Err::<Option<PrimaryRequest>, ReplicaError>(ReplicaError::CodecError),
            Received::Frame(Request::Primary(p)) => r == Ok::<Option<PrimaryRequest>, ReplicaError>(Some(p)),
            Received::Frame(Request::Replica(_)) => r == Err::<Option<PrimaryRequest>, ReplicaError>(
                ReplicaError::ProtocolMismatch,
            ),
        },
{
    match received {
        Received::Closed => Ok(None),
        Received::Malformed => Err(ReplicaError::CodecError),
        Received::Frame(Request::Primary(p)) => Ok(Some(p)),
        Received::Frame(Request::Replica(_)) => Err(ReplicaError::ProtocolMismatch),
    }
}

/// The two tag bytes of a frame: primary or replica, then the variant.
pub open spec fn request_tags(v: RequestView) -> Seq<u8> {
    match v {
        RequestView::Primary(PrimaryView::Ping) => seq![0u8, 0u8],
        RequestView::Primary(PrimaryView::AskIndex) => seq![0u8, 1u8],
        RequestView::Primary(PrimaryView::SendRange(_, _)) => seq![0u8, 2u8],
        RequestView::Replica(ReplicaView::Pong) => seq![1u8, 0u8],
        RequestView::Replica(ReplicaView::RecvIndex(_)) => seq![1u8, 1u8],
        RequestView::Replica(ReplicaView::RecvRange) => seq![1u8, 2u8],
        RequestView::Replica(ReplicaView::QueueNotFound(_)) => seq![1u8, 3u8],
    }
}

/// What follows the tags.
pub open spec fn request_payload(v: RequestView) -> Seq<u8> {
    match v {
        RequestView::Primary(PrimaryView::SendRange(n, es)) => str_enc(n) + list_enc(es, entry_enc()),
        RequestView::Replica(ReplicaView::RecvIndex(ps)) => list_enc(ps, pair_enc()),
        RequestView::Replica(ReplicaView::QueueNotFound(n)) => str_enc(n),
        _ => Seq::empty(),
    }
}

pub open spec fn request_enc(v: RequestView) -> Seq<u8> {
    request_tags(v) + request_payload(v)
}

/// A frame on the wire: the encoded request behind its length.
pub open spec fn frame_enc(v: RequestView) -> Seq<u8> {
    bytes_enc(request_enc(v))
}

pub fn encode_request(req: &Request) -> (r: Vec<u8>)
    ensures
        r@ == request_enc(req@),
{
    let mut out: Vec<u8> = Vec::new();
    match req {
        Request::Primary(p) => {
            out.push(0u8);
            match p {
                PrimaryRequest::Ping => out.push(0u8),
                PrimaryRequest::AskIndex => out.push(1u8),
                PrimaryRequest::SendRange(n, es) => {
                    out.push(2u8);
                    put_str(&mut out, n.as_str());
                    put_entries(&mut out, es);
                },
            }
        },
        Request::Replica(r) => {
            out.push(1u8);
            match r {
                ReplicaRequest::Pong => out.push(0u8),
                ReplicaRequest::RecvIndex(ps) => {
                    out.push(1u8);
                    put_pairs(&mut out, ps);
                },
                ReplicaRequest::RecvRange => out.push(2u8),
                ReplicaRequest::QueueNotFound(n) => {
                    out.push(3u8);
                    put_str(&mut out, n.as_str());
                },
            }
        },
    }
    assert(out@ =~= request_enc(req@));
    out
}

/// The frame that carries `req`.
pub fn encode_frame(req: &Request) -> (r: Vec<u8>)
    ensures
        r@ == frame_enc(req@),
{
    let body = encode_request(req);
    let mut out: Vec<u8> = Vec::new();
    put_bytes(&mut out, body.as_slice());
    out
}

/// The length of the frame body announced by an 8-byte header.
pub fn frame_length(header: &[u8]) -> (r: Option<u64>)
    ensures
        r is Some <==> header@.len() >= 8,
        r is Some ==> header@.subrange(0, 8) == crate::codec::u64_le(r->0),
{
    crate::codec::get_u64(header, 0)
}

proof fn lemma_request_parts(buf: Seq<u8>, v: RequestView)
    ensures
        buf == request_enc(v) ==> buf.len() >= 2 && buf[0] == request_tags(v)[0] && buf[1] == request_tags(v)[1]
            && holds_at(buf, 2, request_payload(v)) && buf.len() == 2 + request_payload(v).len(),
{
    if buf == request_enc(v) {
        assert(buf.subrange(0, buf.len() as int) =~= buf);
        lemma_holds_concat(buf, 0, request_tags(v), request_payload(v));
        assert(request_tags(v)[0] == buf.subrange(0, 2)[0]);
        assert(request_tags(v)[1] == buf.subrange(0, 2)[1]);
    }
}

/// The request a frame body holds; `None` unless the body is exactly one
/// encoded request.
#[verifier::rlimit(40)]
pub fn decode_request(body: &[u8]) -> (r: Option<Request>)
    ensures
        r is Some ==> body@ == request_enc(r->0@),
        forall|v: RequestView| body@ == #[trigger] request_enc(v) ==> r is Some && r->0@ == v,
{
    proof {
        assert forall|v: RequestView| body@ == #[trigger] request_enc(v) implies body@.len() >= 2 && body@[0]
            == request_tags(v)[0] && body@[1] == request_tags(v)[1] && holds_at(body@, 2, request_payload(v))
            && body@.len() == 2 + request_payload(v).len() by {
            lemma_request_parts(body@, v);
        }
    }
    let n = body.len();
    if n < 2 {
        return None;
    }
    let t1 = body[0];
    let t2 = body[1];
    let ghost empty = Seq::<u8>::empty();
    proof {
        assert(body@.subrange(2, 2) =~= empty);
    }
    let r: Option<Request> = if t1 == 0u8 && t2 == 0u8 && n == 2 {
        Some(Request::Primary(PrimaryRequest::Ping))
    } else if t1 == 0u8 && t2 == 1u8 && n == 2 {
        Some(Request::Primary(PrimaryRequest::AskIndex))
    } else if t1 == 1u8 && t2 == 0u8 && n == 2 {
        Some(Request::Replica(ReplicaRequest::Pong))
    } else if t1 == 1u8 && t2 == 2u8 && n == 2 {
        Some(Request::Replica(ReplicaRequest::RecvRange))
    } else if t1 == 0u8 && t2 == 2u8 {
        match get_string(body, 2) {
            Some((name, p)) => match get_entries(body, p) {
                Some((es, end)) => {
                    proof {
                        lemma_holds_concat(body@, 2, str_enc(name@), list_enc(entries_view(es@), entry_enc()));
                        assert forall|v: RequestView| body@ == #[trigger] request_enc(v) && v is Primary && v->Primary_0 is SendRange
                            implies end == n by {
                            let nv = v->Primary_0->SendRange_0;
                            let ev = v->Primary_0->SendRange_1;
                            lemma_holds_concat(body@, 2, str_enc(nv), list_enc(ev, entry_enc()));
                        }
                    }
                    if end == n {
                        Some(Request::Primary(PrimaryRequest::SendRange(name, es)))
                    } else {
                        None
                    }
                },
                None => None,
            },
            None => None,
        }
    } else if t1 == 1u8 && t2 == 1u8 {
        match get_pairs(body, 2) {
            Some((ps, end)) => {
                if end == n {
                    Some(Request::Replica(ReplicaRequest::RecvIndex(ps)))
                } else {
                    None
                }
            },
            None => None,
        }
    } else if t1 == 1u8 && t2 == 3u8 {
        match get_string(body, 2) {
            Some((name, end)) => {
                if end == n {
                    Some(Request::Replica(ReplicaRequest::QueueNotFound(name)))
                } else {
                    None
                }
            },
            None => None,
        }
    } else {
        None
    };
    proof {
        if r is Some {
            let v = r->0@;
            if request_payload(v).len() > 0 {
                lemma_holds_concat(body@, 0, request_tags(v), request_payload(v));
                assert(body@.subrange(0, 2) =~= request_tags(v));
            }
            assert(body@ =~= request_enc(v));
        }
        assert forall|v: RequestView| body@ == #[trigger] request_enc(v) implies r is Some && r->0@ == v by {
            match v {
                RequestView::Primary(PrimaryView::SendRange(nv, ev)) => {
                    lemma_holds_concat(body@, 2, str_enc(nv), list_enc(ev, entry_enc()));
                },
                _ => {},
            }
        }
    }
    r
}

} // verus!
