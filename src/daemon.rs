//! The decision logic of the node client: request ids, HTTP framing of
//! JSON-RPC requests and replies, the classification of a reply, the retry
//! policy, the startup handshake, and the backward walk for new headers.
use vstd::prelude::*;
use crate::codec::push_all;
use crate::header::{is_null_hash, prev_blockhash, HeaderList, HEADER_LEN};
use crate::util::FullHash;

verus! {

/// Monotonic source of JSON-RPC request ids.
pub struct Counter {
    value: u64,
}

impl Counter {
    pub closed spec fn spec_value(&self) -> u64 {
        self.value
    }

    pub fn new() -> (r: Counter)
        ensures
            r.spec_value() == 0,
    {
        Counter { value: 0 }
    }

    /// The last id handed out (0 before the first).
    pub fn value(&self) -> (r: u64)
        ensures
            r == self.spec_value(),
    {
        self.value
    }

    /// The next id: one more than the last.
    pub fn next(&mut self) -> (r: u64)
        requires
            old(self).spec_value() < u64::MAX,
        ensures
            r == old(self).spec_value() + 1,
            final(self).spec_value() == r,
    {
        self.value = self.value + 1;
        self.value
    }
}

/// The most JSON-RPC entries sent in one request.
pub const MAX_BATCH: usize = 50_000;

/// The JSON-RPC error code of a node that is still warming up.
pub const RPC_IN_WARMUP: i64 = -28;

/// The decimal digits of `n`, most significant first.
pub open spec fn decimal(n: nat) -> Seq<u8>
    decreases n,
{
    if n < 10 {
        seq![(48 + n) as u8]
    } else {
        decimal(n / 10).push((48 + n % 10) as u8)
    }
}

/// Appends the decimal digits of `n`.
pub fn push_decimal(out: &mut Vec<u8>, n: u64)
    ensures
        final(out)@ == old(out)@ + decimal(n as nat),
    decreases n,
{
    if n >= 10 {
        push_decimal(out, n / 10);
    }
    out.push((48 + n % 10) as u8);
    assert(final(out)@ =~= old(out)@ + decimal(n as nat));
}

/// What base64 (standard alphabet, padded) encodes the bytes as.
pub uninterp spec fn base64_of(data: Seq<u8>) -> Seq<u8>;

/// Relies on base64's `encode`: the standard padded base64 text of the input.
#[verifier::external_body]
fn base64_encode(data: &[u8]) -> (r: Vec<u8>)
    ensures
        r@ == base64_of(data@),
{
    base64::encode(data).into_bytes()
}

/// The bytes of an HTTP/1.1 `POST /` carrying `request` with basic
/// authorization `cookie`.
pub open spec fn spec_request_bytes(cookie: Seq<u8>, request: Seq<u8>) -> Seq<u8> {
    "POST / HTTP/1.1\nAuthorization: Basic "@.map_values(|c: char| c as u8) + base64_of(cookie)
        + "\nContent-Length: "@.map_values(|c: char| c as u8) + decimal(request.len())
        + "\n\n"@.map_values(|c: char| c as u8) + request
}

/// Appends the ASCII text `s`.
fn push_ascii(out: &mut Vec<u8>, s: &str)
    requires
        s.is_ascii(),
    ensures
        final(out)@ == old(out)@ + s@.map_values(|c: char| c as u8),
{
    let b = s.as_bytes();
    proof {
        vstd::string::is_ascii_spec_bytes(s);
    }
    push_all(out, b);
    assert(b@ =~= s@.map_values(|c: char| c as u8));
}

/// Frames a JSON-RPC request body as an HTTP request.
pub fn format_request(cookie: &[u8], request: &[u8]) -> (r: Vec<u8>)
    ensures
        r@ == spec_request_bytes(cookie@, request@),
{
    proof {
        reveal_strlit("POST / HTTP/1.1\nAuthorization: Basic ");
        reveal_strlit("\nContent-Length: ");
        reveal_strlit("\n\n");
    }
    let mut r: Vec<u8> = Vec::new();
    push_ascii(&mut r, "POST / HTTP/1.1\nAuthorization: Basic ");
    let auth = base64_encode(cookie);
    push_all(&mut r, auth.as_slice());
    push_ascii(&mut r, "\nContent-Length: ");
    push_decimal(&mut r, request.len() as u64);
    push_ascii(&mut r, "\n\n");
    push_all(&mut r, request);
    assert(r@ =~= spec_request_bytes(cookie@, request@));
    r
}

} // verus!

verus! {

/// Why a reply could not be read.
#[derive(Debug, Copy, Clone, PartialEq, Eq, Structural)]
pub enum RecvError {
    /// The connection closed before the status line.
    Disconnected,
    /// The connection closed before the body.
    NoReply,
    /// The body is not `Content-Length - 1` bytes long.
    LengthMismatch,
    /// No `Content-Length` header.
    MissingContentLength,
    /// A `Content-Length` header that is not a number.
    InvalidContentLength,
    /// A status other than 200 or 500 (a transport failure).
    BadStatus,
}

impl RecvError {
    /// Transport, framing and status failures are recovered by reconnecting; a
    /// missing or malformed `Content-Length` is fatal.
    pub open spec fn spec_is_connection(self) -> bool {
        match self {
            RecvError::Disconnected | RecvError::NoReply | RecvError::LengthMismatch
            | RecvError::BadStatus => true,
            _ => false,
        }
    }

    pub fn is_connection(&self) -> (r: bool)
        ensures
            r == self.spec_is_connection(),
    {
        match self {
            RecvError::Disconnected | RecvError::NoReply | RecvError::LengthMismatch
            | RecvError::BadStatus => true,
            _ => false,
        }
    }
}

pub open spec fn ascii(s: Seq<char>) -> Seq<u8> {
    s.map_values(|c: char| c as u8)
}

/// The value of the last `Content-Length` header line, if any.
pub open spec fn spec_content_length(headers: Seq<Seq<u8>>) -> Option<Seq<u8>>
    decreases headers.len(),
{
    if headers.len() == 0 {
        None
    } else {
        let h = headers.last();
        let p = ascii("Content-Length: "@);
        if h.len() >= p.len() && h.subrange(0, p.len() as int) == p {
            Some(h.subrange(p.len() as int, h.len() as int))
        } else {
            spec_content_length(headers.drop_last())
        }
    }
}

pub open spec fn is_digit(b: u8) -> bool {
    48 <= b <= 57
}

/// The number that decimal digits `s` denote.
pub open spec fn dec_value(s: Seq<u8>) -> nat
    decreases s.len(),
{
    if s.len() == 0 {
        0
    } else {
        dec_value(s.drop_last()) * 10 + (s.last() - 48) as nat
    }
}

/// `s` without its leading `+`, if it has one.
pub open spec fn digits_part(s: Seq<u8>) -> Seq<u8> {
    if s.len() > 0 && s[0] == 43u8 {
        s.drop_first()
    } else {
        s
    }
}

/// A `usize` in decimal, with an optional leading `+`, as Rust's `str::parse` reads it.
pub open spec fn spec_parse_usize(s: Seq<u8>) -> Option<nat> {
    let d = digits_part(s);
    if d.len() > 0 && (forall|i: int| 0 <= i < d.len() ==> is_digit(#[trigger] d[i])) && dec_value(d)
        <= usize::MAX {
        Some(dec_value(d))
    } else {
        None
    }
}

proof fn lemma_dec_prefix_le(d: Seq<u8>, k: int)
    requires
        0 <= k <= d.len(),
        forall|i: int| 0 <= i < d.len() ==> is_digit(#[trigger] d[i]),
    ensures
        dec_value(d.subrange(0, k)) <= dec_value(d),
    decreases d.len() - k,
{
    if k < d.len() {
        lemma_dec_prefix_le(d, k + 1);
        let s = d.subrange(0, k + 1);
        assert(s.drop_last() =~= d.subrange(0, k));
        assert(is_digit(s.last()));
    } else {
        assert(d.subrange(0, k) =~= d);
    }
}

proof fn lemma_parse_unfold(s: Seq<u8>)
    ensures
        ({
            let d = digits_part(s);
            spec_parse_usize(s) is None <== !(d.len() > 0 && (forall|i: int|
                0 <= i < d.len() ==> is_digit(#[trigger] d[i])) && dec_value(d) <= usize::MAX)
        }),
{
}

/// Reads a `usize` written in decimal (see `spec_parse_usize`).
#[verifier::rlimit(50)]
pub fn parse_usize(s: &[u8]) -> (r: Option<usize>)
    ensures
        match spec_parse_usize(s@) {
            Some(v) => r == Some(v as usize),
            None => r is None,
        },
{
    let start: usize = if s.len() > 0 && s[0] == 43u8 {
        1
    } else {
        0
    };
    let ghost d = digits_part(s@);
    assert(d =~= s@.subrange(start as int, s@.len() as int));
    if s.len() == start {
        return None;
    }
    let mut acc: usize = 0;
    let mut i: usize = start;
    while i < s.len()
        invariant
            start <= i <= s@.len(),
            d == digits_part(s@),
            d == s@.subrange(start as int, s@.len() as int),
            forall|k: int| start <= k < i ==> is_digit(#[trigger] s@[k]),
            acc as nat == dec_value(s@.subrange(start as int, i as int)),
        decreases s@.len() - i,
    {
        let b = s[i];
        if !(48u8 <= b && b <= 57u8) {
            proof {
                let k = i - start;
                assert(d[k] == s@[i as int]);
                assert(!is_digit(d[k]));
                assert(!(forall|j: int| 0 <= j < d.len() ==> is_digit(#[trigger] d[j])));
                lemma_parse_unfold(s@);
            }
            return None;
        }
        let digit = (b - 48u8) as usize;
        let ghost pre = s@.subrange(start as int, i + 1);
        assert(pre.drop_last() =~= s@.subrange(start as int, i as int));
        if acc > (usize::MAX - digit) / 10 {
            proof {
                assert(dec_value(pre) > usize::MAX) by (nonlinear_arith)
                    requires
                        dec_value(pre) == acc * 10 + digit,
                        acc > (usize::MAX - digit) / 10,
                        digit <= 9,
                ;
                // the rest of the digits, if all are digits, only make the number larger
                assert(d.subrange(0, i + 1 - start) =~= pre);
                if forall|k: int| 0 <= k < d.len() ==> is_digit(#[trigger] d[k]) {
                    lemma_dec_prefix_le(d, i + 1 - start);
                    assert(dec_value(d) > usize::MAX);
                }
                lemma_parse_unfold(s@);
            }
            return None;
        }
        acc = acc * 10 + digit;
        i = i + 1;
    }
    assert(s@.subrange(start as int, i as int) =~= d);
    Some(acc)
}

/// What a reply made of `status`, header lines `headers` and `body` (`None`
/// where the connection closed first) yields.
pub open spec fn spec_parse_response(
    status: Option<Seq<u8>>,
    headers: Seq<Seq<u8>>,
    body: Option<Seq<u8>>,
) -> Result<Seq<u8>, RecvError> {
    match (status, body) {
        (None, _) => Err(RecvError::Disconnected),
        (_, None) => Err(RecvError::NoReply),
        (Some(st), Some(b)) => match spec_content_length(headers) {
            None => Err(RecvError::MissingContentLength),
            Some(cl) => match spec_parse_usize(cl) {
                None => Err(RecvError::InvalidContentLength),
                Some(n) => if n == 0 || n - 1 != b.len() {
                    Err(RecvError::LengthMismatch)
                } else if st == ascii("HTTP/1.1 200 OK"@) || st == ascii(
                    "HTTP/1.1 500 Internal Server Error"@,
                ) {
                    Ok(b)
                } else {
                    Err(RecvError::BadStatus)
                },
            },
        },
    }
}

/// Whether `s` holds exactly the ASCII text `t`.
fn bytes_are(s: &[u8], t: &str) -> (r: bool)
    requires
        t.is_ascii(),
    ensures
        r == (s@ == ascii(t@)),
{
    proof {
        vstd::string::is_ascii_spec_bytes(t);
    }
    let tb = t.as_bytes();
    assert(tb@ =~= ascii(t@));
    crate::util::bytes_eq(s, tb)
}

/// The value of the last `Content-Length` header line.
#[verifier::rlimit(50)]
pub fn content_length(headers: &Vec<Vec<u8>>) -> (r: Option<&[u8]>)
    ensures
        match spec_content_length(headers@.map_values(|h: Vec<u8>| h@)) {
            Some(v) => r matches Some(x) && x@ == v,
            None => r is None,
        },
{
    proof {
        reveal_strlit("Content-Length: ");
        vstd::string::is_ascii_spec_bytes("Content-Length: ");
    }
    let p = "Content-Length: ".as_bytes();
    assert(p@ =~= ascii("Content-Length: "@));
    let ghost hs = headers@.map_values(|h: Vec<u8>| h@);
    let mut i: usize = headers.len();
    assert(hs.subrange(0, i as int) =~= hs);
    while i > 0
        invariant
            i <= headers@.len(),
            hs == headers@.map_values(|h: Vec<u8>| h@),
            p@ == ascii("Content-Length: "@),
            spec_content_length(hs) == spec_content_length(hs.subrange(0, i as int)),
        decreases i,
    {
        let h = headers[i - 1].as_slice();
        let ghost sub = hs.subrange(0, i as int);
        assert(sub.last() == h@);
        assert(sub.drop_last() =~= hs.subrange(0, i - 1));
        if h.len() >= p.len() {
            let (name, value) = h.split_at(p.len());
            if crate::util::bytes_eq(name, p) {
                return Some(value);
            }
        }
        i = i - 1;
    }
    None
}

/// Checks a reply read off the connection and returns its body.
#[verifier::rlimit(50)]
pub fn parse_response(status: Option<Vec<u8>>, headers: &Vec<Vec<u8>>, body: Option<Vec<u8>>) -> (r:
    Result<Vec<u8>, RecvError>)
    ensures
        match spec_parse_response(
            match status {
                Some(s) => Some(s@),
                None => None,
            },
            headers@.map_values(|h: Vec<u8>| h@),
            match body {
                Some(b) => Some(b@),
                None => None,
            },
        ) {
            Ok(b) => r matches Ok(x) && x@ == b,
            Err(e) => r == Err::<Vec<u8>, RecvError>(e),
        },
{
    proof {
        reveal_strlit("HTTP/1.1 200 OK");
        reveal_strlit("HTTP/1.1 500 Internal Server Error");
    }
    let status = match status {
        None => {
            return Err(RecvError::Disconnected);
        },
        Some(s) => s,
    };
    let body = match body {
        None => {
            return Err(RecvError::NoReply);
        },
        Some(b) => b,
    };
    let cl = match content_length(headers) {
        None => {
            return Err(RecvError::MissingContentLength);
        },
        Some(cl) => cl,
    };
    let n = match parse_usize(cl) {
        None => {
            return Err(RecvError::InvalidContentLength);
        },
        Some(n) => n,
    };
    if n == 0 || n - 1 != body.len() {
        return Err(RecvError::LengthMismatch);
    }
    if bytes_are(status.as_slice(), "HTTP/1.1 200 OK") || bytes_are(
        status.as_slice(),
        "HTTP/1.1 500 Internal Server Error",
    ) {
        Ok(body)
    } else {
        Err(RecvError::BadStatus)
    }
}

} // verus!

verus! {

/// What one JSON-RPC reply entry amounts to.
#[derive(Debug, Copy, Clone, PartialEq, Eq, Structural)]
pub enum ReplyKind {
    /// A result for this request.
    Result,
    /// The node is warming up: reconnect and retry.
    Warmup,
    /// Any other JSON-RPC error: fatal.
    RpcError,
    /// The reply has no id.
    NoId,
    /// The reply answers another request.
    WrongId,
    /// The reply has neither result nor error.
    NoResult,
    /// The reply is not a JSON object.
    NotObject,
}

/// The kind of a reply entry. `error_code` is `None` when the `error` field is
/// absent or null, `Some(None)` when it has no integer `code`; `id` is `None`
/// when there is no `id`, `Some(None)` when it is not an unsigned integer.
pub open spec fn spec_classify_reply(
    is_object: bool,
    error_code: Option<Option<i64>>,
    id: Option<Option<u64>>,
    expected_id: u64,
    has_result: bool,
) -> ReplyKind {
    if !is_object {
        ReplyKind::NotObject
    } else if error_code == Some(Some(RPC_IN_WARMUP)) {
        ReplyKind::Warmup
    } else if error_code matches Some(Some(_)) {
        ReplyKind::RpcError
    } else if id is None {
        ReplyKind::NoId
    } else if id != Some(Some(expected_id)) {
        ReplyKind::WrongId
    } else if !has_result {
        ReplyKind::NoResult
    } else {
        ReplyKind::Result
    }
}

pub fn classify_reply(
    is_object: bool,
    error_code: Option<Option<i64>>,
    id: Option<Option<u64>>,
    expected_id: u64,
    has_result: bool,
) -> (r: ReplyKind)
    ensures
        r == spec_classify_reply(is_object, error_code, id, expected_id, has_result),
{
    if !is_object {
        return ReplyKind::NotObject;
    }
    match error_code {
        Some(Some(code)) => {
            return if code == RPC_IN_WARMUP {
                ReplyKind::Warmup
            } else {
                ReplyKind::RpcError
            };
        },
        _ => {},
    }
    match id {
        None => ReplyKind::NoId,
        Some(None) => ReplyKind::WrongId,
        Some(Some(n)) => if n != expected_id {
            ReplyKind::WrongId
        } else if !has_result {
            ReplyKind::NoResult
        } else {
            ReplyKind::Result
        },
    }
}

/// How one attempt at a batched request ended.
#[derive(Debug, Copy, Clone, PartialEq, Eq, Structural)]
pub enum BatchOutcome {
    Success,
    /// Transport, framing or warmup failure.
    Connection,
    /// Any other failure.
    Fatal,
}

/// What the client does after an attempt.
#[derive(Debug, Copy, Clone, PartialEq, Eq, Structural)]
pub enum RetryAction {
    /// Hand the outcome to the caller.
    Return,
    /// Sleep, reconnect and send the whole batch again.
    ReconnectAndRetry,
}

/// The retry loop's state: how many reconnects it has made.
#[derive(Debug, Copy, Clone)]
pub struct RetryState {
    pub reconnects: u64,
}

impl RetryState {
    pub fn new() -> (r: RetryState)
        ensures
            r.reconnects == 0,
    {
        RetryState { reconnects: 0 }
    }

    /// Connection failures are retried after a reconnect; anything else returns.
    pub fn step(&mut self, outcome: BatchOutcome) -> (r: RetryAction)
        ensures
            outcome == BatchOutcome::Connection ==> r == RetryAction::ReconnectAndRetry
                && final(self).reconnects == if old(self).reconnects == u64::MAX {
                u64::MAX
            } else {
                (old(self).reconnects + 1) as u64
            },
            outcome != BatchOutcome::Connection ==> r == RetryAction::Return && *final(self)
                == *old(self),
    {
        match outcome {
            BatchOutcome::Connection => {
                if self.reconnects < u64::MAX {
                    self.reconnects = self.reconnects + 1;
                }
                RetryAction::ReconnectAndRetry
            },
            _ => RetryAction::Return,
        }
    }
}

/// The oldest node version supported.
pub const MIN_NODE_VERSION: u64 = 160_000;

/// Why the node cannot be used.
#[derive(Debug, Copy, Clone, PartialEq, Eq, Structural)]
pub enum DaemonError {
    /// The node is older than 0.16.
    Unsupported,
    /// The node prunes its blocks.
    Pruned,
    /// The node answered something that was not asked.
    UnexpectedReply,
}

/// Where the startup handshake stands.
#[derive(Debug, Copy, Clone, PartialEq, Eq, Structural)]
pub enum Handshake {
    AwaitNetworkInfo,
    AwaitChainInfo,
    Syncing,
    Ready,
    Failed(DaemonError),
}

/// What the node answered.
#[derive(Debug, Copy, Clone)]
pub enum HandshakeEvent {
    NetworkInfo { version: u64 },
    ChainInfo { pruned: bool, initialblockdownload: Option<bool>, blocks: u32, headers: u32 },
}

/// What the client does next.
#[derive(Debug, Copy, Clone, PartialEq, Eq, Structural)]
pub enum HandshakeAction {
    RequestNetworkInfo,
    RequestChainInfo,
    /// Sleep (5 s, interruptible) then ask again.
    WaitThenRequestChainInfo,
    Done,
    Fail(DaemonError),
}

/// The handshake's transition on one answer.
pub open spec fn spec_handshake_step(state: Handshake, event: HandshakeEvent) -> (Handshake, HandshakeAction) {
    match (state, event) {
        (Handshake::AwaitNetworkInfo, HandshakeEvent::NetworkInfo { version }) => if version
            < MIN_NODE_VERSION {
            (Handshake::Failed(DaemonError::Unsupported), HandshakeAction::Fail(DaemonError::Unsupported))
        } else {
            (Handshake::AwaitChainInfo, HandshakeAction::RequestChainInfo)
        },
        (Handshake::AwaitChainInfo, HandshakeEvent::ChainInfo { pruned, .. }) => if pruned {
            (Handshake::Failed(DaemonError::Pruned), HandshakeAction::Fail(DaemonError::Pruned))
        } else {
            (Handshake::Syncing, HandshakeAction::RequestChainInfo)
        },
        (Handshake::Syncing, HandshakeEvent::ChainInfo { initialblockdownload, blocks, headers, .. }) => {
            if initialblockdownload != Some(true) && blocks == headers {
                (Handshake::Ready, HandshakeAction::Done)
            } else {
                (Handshake::Syncing, HandshakeAction::WaitThenRequestChainInfo)
            }
        },
        _ => (
            Handshake::Failed(DaemonError::UnexpectedReply),
            HandshakeAction::Fail(DaemonError::UnexpectedReply),
        ),
    }
}

/// The handshake starts by asking for the network info.
pub fn handshake_start() -> (r: (Handshake, HandshakeAction))
    ensures
        r == (Handshake::AwaitNetworkInfo, HandshakeAction::RequestNetworkInfo),
{
    (Handshake::AwaitNetworkInfo, HandshakeAction::RequestNetworkInfo)
}

/// Checks the node's version, then that it does not prune, then waits until it
/// has left initial block download with all its headers' blocks.
pub fn handshake_step(state: Handshake, event: HandshakeEvent) -> (r: (Handshake, HandshakeAction))
    ensures
        r == spec_handshake_step(state, event),
{
    match (state, event) {
        (Handshake::AwaitNetworkInfo, HandshakeEvent::NetworkInfo { version }) => {
            if version < MIN_NODE_VERSION {
                (Handshake::Failed(DaemonError::Unsupported), HandshakeAction::Fail(DaemonError::Unsupported))
            } else {
                (Handshake::AwaitChainInfo, HandshakeAction::RequestChainInfo)
            }
        },
        (Handshake::AwaitChainInfo, HandshakeEvent::ChainInfo { pruned, .. }) => {
            if pruned {
                (Handshake::Failed(DaemonError::Pruned), HandshakeAction::Fail(DaemonError::Pruned))
            } else {
                (Handshake::Syncing, HandshakeAction::RequestChainInfo)
            }
        },
        (Handshake::Syncing, HandshakeEvent::ChainInfo { initialblockdownload, blocks, headers, .. }) => {
            let ibd = match initialblockdownload {
                Some(b) => b,
                None => false,
            };
            if !ibd && blocks == headers {
                (Handshake::Ready, HandshakeAction::Done)
            } else {
                (Handshake::Syncing, HandshakeAction::WaitThenRequestChainInfo)
            }
        },
        _ => (
            Handshake::Failed(DaemonError::UnexpectedReply),
            HandshakeAction::Fail(DaemonError::UnexpectedReply),
        ),
    }
}

/// Heights per request when downloading all headers.
pub const HEADERS_CHUNK: usize = 100_000;

/// The backward walk from the node's tip to a header the indexer knows: the
/// headers collected so far (tip first) and the hash to fetch next.
pub struct HeaderWalk {
    pub collected: Vec<Vec<u8>>,
    pub next: FullHash,
}

impl HeaderWalk {
    /// A walk that starts at `tip`.
    pub fn new(tip: FullHash) -> (r: HeaderWalk)
        ensures
            r.collected@.len() == 0,
            r.next == tip,
    {
        HeaderWalk { collected: Vec::new(), next: tip }
    }

    /// The hash of the next header to fetch, or `None` once the walk reached the
    /// null hash or a block that `indexed` already holds.
    pub fn wanted(&self, indexed: &HeaderList) -> (r: Option<FullHash>)
        ensures
            r is None <==> (self.next@ == crate::header::null_hash() || crate::header::spec_find(
                indexed.headers@,
                self.next@,
            ) is Some),
            r matches Some(h) ==> h == self.next,
    {
        if is_null_hash(&self.next) {
            return None;
        }
        match indexed.header_by_blockhash(&self.next) {
            Some(_) => None,
            None => Some(self.next),
        }
    }

    /// Records the header fetched for `next` and moves on to its parent. Refuses
    /// a header that is not 80 bytes, or that does not hash to `next`.
    pub fn push(&mut self, header: Vec<u8>) -> (r: Result<(), crate::header::HeaderError>)
        ensures
            r.is_ok() <==> header@.len() == 80 && crate::chain::sha256d_of(header@) == old(self).next@,
            r.is_ok() ==> final(self).collected@.len() == old(self).collected@.len() + 1
                && final(self).collected@.last()@ == header@
                && final(self).collected@.drop_last() == old(self).collected@
                && final(self).next@ == crate::header::spec_prev_hash(header@),
            r.is_err() ==> final(self).collected@ == old(self).collected@ && final(self).next
                == old(self).next,
    {
        if header.len() != HEADER_LEN {
            return Err(crate::header::HeaderError::InvalidHeader);
        }
        let h = crate::chain::header_hash(&header);
        if !crate::util::hash_eq(&h, &self.next) {
            return Err(crate::header::HeaderError::NotContiguous);
        }
        self.next = prev_blockhash(&header);
        self.collected.push(header);
        assert(self.collected@.drop_last() =~= old(self).collected@);
        Ok(())
    }

    /// The collected headers, lowest first.
    pub fn finish(self) -> (r: Vec<Vec<u8>>)
        ensures
            r@.len() == self.collected@.len(),
            forall|i: int|
                0 <= i < r@.len() ==> #[trigger] r@[i] == self.collected@[self.collected@.len() - 1 - i],
    {
        let mut out: Vec<Vec<u8>> = Vec::new();
        let mut rest = self.collected;
        let ghost orig = rest@;
        while rest.len() > 0
            invariant
                rest@ == orig.subrange(0, orig.len() - out@.len()),
                out@.len() <= orig.len(),
                forall|i: int| 0 <= i < out@.len() ==> #[trigger] out@[i] == orig[orig.len() - 1 - i],
            decreases rest@.len(),
        {
            let h = rest.pop().unwrap();
            out.push(h);
            assert(rest@ =~= orig.subrange(0, orig.len() - out@.len()));
        }
        out
    }
}

} // verus!

verus! {

/// Why the authentication cookie could not be had.
#[derive(Debug, Copy, Clone, PartialEq, Eq, Structural)]
pub enum CookieError {
    Unreadable,
}

/// A source of the node's RPC authentication cookie (`user:password` bytes).
pub trait CookieGetter {
    fn get(&self) -> Result<Vec<u8>, CookieError>;
}

/// A cookie given by the operator.
pub struct StaticCookie {
    pub value: Vec<u8>,
}

impl CookieGetter for StaticCookie {
    fn get(&self) -> Result<Vec<u8>, CookieError> {
        Ok(self.value.clone())
    }
}

impl StaticCookie {
    /// The operator's cookie, as given.
    pub fn cookie(&self) -> (r: Vec<u8>)
        ensures
            r@ == self.value@,
    {
        self.value.clone()
    }
}

} // verus!

verus! {

/// Headers downloaded from height 0: each 80 bytes, the first with no parent,
/// each pointing to the one before, and the last hashing to `tip` (no headers
/// only for a null tip).
pub open spec fn spec_reach_tip(hs: Seq<Seq<u8>>, tip: Seq<u8>) -> bool {
    &&& forall|i: int| 0 <= i < hs.len() ==> (#[trigger] hs[i]).len() == 80
    &&& hs.len() > 0 ==> crate::header::spec_prev_hash(hs[0]) == crate::header::null_hash()
    &&& crate::header::spec_linked(hs)
    &&& if hs.len() == 0 {
        tip == crate::header::null_hash()
    } else {
        crate::chain::sha256d_of(hs.last()) == tip
    }
}

/// Checks the full header download against the node's tip.
#[verifier::rlimit(50)]
pub fn headers_reach_tip(headers: &Vec<Vec<u8>>, tip: &FullHash) -> (r: bool)
    ensures
        r == spec_reach_tip(headers@.map_values(|h: Vec<u8>| h@), tip@),
{
    let ghost hs = headers@.map_values(|h: Vec<u8>| h@);
    let mut expected: FullHash = [0u8; 32];
    assert(expected@ =~= crate::header::null_hash());
    let mut i: usize = 0;
    while i < headers.len()
        invariant
            hs == headers@.map_values(|h: Vec<u8>| h@),
            i <= headers@.len(),
            forall|k: int| 0 <= k < i ==> (#[trigger] hs[k]).len() == 80,
            i > 0 ==> crate::header::spec_prev_hash(hs[0]) == crate::header::null_hash(),
            forall|k: int| 0 < k < i ==> crate::header::spec_prev_hash(#[trigger] hs[k]) == crate::chain::sha256d_of(hs[k - 1]),
            if i == 0 {
                expected@ == crate::header::null_hash()
            } else {
                expected@ == crate::chain::sha256d_of(hs[i - 1])
            },
        decreases headers@.len() - i,
    {
        let h = &headers[i];
        assert(hs[i as int] == h@);
        if h.len() != HEADER_LEN {
            return false;
        }
        let prev = prev_blockhash(h);
        if !crate::util::hash_eq(&prev, &expected) {
            return false;
        }
        expected = crate::chain::header_hash(h);
        i = i + 1;
    }
    crate::util::hash_eq(&expected, tip)
}

} // verus!
