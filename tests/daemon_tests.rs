use electrs::daemon::{
    classify_reply, format_request, handshake_start, handshake_step, parse_response, parse_usize,
    BatchOutcome, CookieGetter, Counter, DaemonError, Handshake, HandshakeAction, HandshakeEvent,
    RecvError, ReplyKind, RetryAction, RetryState, StaticCookie, MAX_BATCH,
};
use electrs::fetch::chunk_ranges;
use electrs::signal::{on_signal, SignalDecision};

#[test]
fn counter_increases_by_one() {
    let mut c = Counter::new();
    assert_eq!(c.next(), 1);
    assert_eq!(c.next(), 2);
    assert_eq!(c.value(), 2);
}

#[test]
fn request_framing() {
    let r = format_request(b"user:pass", b"{\"id\":1}");
    assert_eq!(
        String::from_utf8(r).unwrap(),
        "POST / HTTP/1.1\nAuthorization: Basic dXNlcjpwYXNz\nContent-Length: 8\n\n{\"id\":1}"
    );
}

#[test]
fn static_cookie_is_returned_as_given() {
    let c = StaticCookie { value: b"a:b".to_vec() };
    assert_eq!(c.get().unwrap(), b"a:b".to_vec());
    assert_eq!(c.cookie(), b"a:b".to_vec());
}

fn headers(cl: &str) -> Vec<Vec<u8>> {
    vec![b"Content-Type: application/json".to_vec(), format!("Content-Length: {}", cl).into_bytes()]
}

#[test]
fn reply_with_ok_status() {
    let r = parse_response(Some(b"HTTP/1.1 200 OK".to_vec()), &headers("7"), Some(b"{\"a\":1".to_vec()));
    assert_eq!(r.unwrap(), b"{\"a\":1".to_vec());
    let r = parse_response(
        Some(b"HTTP/1.1 500 Internal Server Error".to_vec()),
        &headers("4"),
        Some(b"{ }".to_vec()),
    );
    assert_eq!(r.unwrap(), b"{ }".to_vec());
}

#[test]
fn reply_errors() {
    let ok = || Some(b"HTTP/1.1 200 OK".to_vec());
    assert_eq!(parse_response(None, &vec![], None).unwrap_err(), RecvError::Disconnected);
    assert_eq!(parse_response(ok(), &headers("3"), None).unwrap_err(), RecvError::NoReply);
    assert_eq!(
        parse_response(ok(), &vec![b"Host: x".to_vec()], Some(vec![1])).unwrap_err(),
        RecvError::MissingContentLength
    );
    assert_eq!(parse_response(ok(), &headers("x1"), Some(vec![1])).unwrap_err(), RecvError::InvalidContentLength);
    let e = parse_response(ok(), &headers("5"), Some(vec![1])).unwrap_err();
    assert_eq!(e, RecvError::LengthMismatch);
    assert!(e.is_connection());
    assert_eq!(parse_response(ok(), &headers("0"), Some(vec![])).unwrap_err(), RecvError::LengthMismatch);
    let e = parse_response(Some(b"HTTP/1.1 401 Unauthorized".to_vec()), &headers("2"), Some(vec![1]))
        .unwrap_err();
    assert_eq!(e, RecvError::BadStatus);
    assert!(e.is_connection());
    assert!(!RecvError::MissingContentLength.is_connection());
    assert!(!RecvError::InvalidContentLength.is_connection());
}

#[test]
fn decimal_parsing() {
    assert_eq!(parse_usize(b"123"), Some(123));
    assert_eq!(parse_usize(b"+7"), Some(7));
    assert_eq!(parse_usize(b""), None);
    assert_eq!(parse_usize(b"+"), None);
    assert_eq!(parse_usize(b"-1"), None);
    assert_eq!(parse_usize(b"99999999999999999999999"), None);
    assert_eq!(parse_usize(b"18446744073709551615"), Some(usize::MAX));
}

#[test]
fn reply_classification() {
    assert_eq!(classify_reply(true, None, Some(Some(4)), 4, true), ReplyKind::Result);
    assert_eq!(classify_reply(true, Some(Some(-28)), Some(Some(4)), 4, false), ReplyKind::Warmup);
    assert_eq!(classify_reply(true, Some(Some(-5)), Some(Some(4)), 4, false), ReplyKind::RpcError);
    assert_eq!(classify_reply(true, Some(None), Some(Some(4)), 4, true), ReplyKind::Result);
    assert_eq!(classify_reply(true, None, None, 4, true), ReplyKind::NoId);
    assert_eq!(classify_reply(true, None, Some(Some(3)), 4, true), ReplyKind::WrongId);
    assert_eq!(classify_reply(true, None, Some(None), 4, true), ReplyKind::WrongId);
    assert_eq!(classify_reply(true, None, Some(Some(4)), 4, false), ReplyKind::NoResult);
    assert_eq!(classify_reply(false, None, None, 4, false), ReplyKind::NotObject);
}

#[test]
fn warmup_three_times_then_success() {
    let mut s = RetryState::new();
    for _ in 0..3 {
        assert_eq!(s.step(BatchOutcome::Connection), RetryAction::ReconnectAndRetry);
    }
    assert_eq!(s.step(BatchOutcome::Success), RetryAction::Return);
    assert_eq!(s.reconnects, 3);
    assert_eq!(s.step(BatchOutcome::Fatal), RetryAction::Return);
    assert_eq!(s.reconnects, 3);
}

#[test]
fn batches_of_fifty_thousand() {
    assert_eq!(MAX_BATCH, 50_000);
    let r = chunk_ranges(120_000, MAX_BATCH);
    assert_eq!(r, vec![(0, 50_000), (50_000, 100_000), (100_000, 120_000)]);
}

#[test]
fn handshake_checks_version_pruning_and_sync() {
    let (s, a) = handshake_start();
    assert_eq!(a, HandshakeAction::RequestNetworkInfo);
    let (old, a) = handshake_step(s, HandshakeEvent::NetworkInfo { version: 150_000 });
    assert_eq!(old, Handshake::Failed(DaemonError::Unsupported));
    assert_eq!(a, HandshakeAction::Fail(DaemonError::Unsupported));
    let (s, a) = handshake_step(s, HandshakeEvent::NetworkInfo { version: 160_000 });
    assert_eq!(a, HandshakeAction::RequestChainInfo);
    let pruned = HandshakeEvent::ChainInfo { pruned: true, initialblockdownload: None, blocks: 1, headers: 1 };
    assert_eq!(handshake_step(s, pruned).1, HandshakeAction::Fail(DaemonError::Pruned));
    let info = |ibd, blocks, headers| HandshakeEvent::ChainInfo {
        pruned: false,
        initialblockdownload: ibd,
        blocks,
        headers,
    };
    let (s, a) = handshake_step(s, info(Some(true), 5, 9));
    assert_eq!(a, HandshakeAction::RequestChainInfo);
    let (s, a) = handshake_step(s, info(Some(true), 5, 9));
    assert_eq!(a, HandshakeAction::WaitThenRequestChainInfo);
    let (s, a) = handshake_step(s, info(Some(false), 8, 9));
    assert_eq!(a, HandshakeAction::WaitThenRequestChainInfo);
    let (s, a) = handshake_step(s, info(None, 9, 9));
    assert_eq!((s, a), (Handshake::Ready, HandshakeAction::Done));
}

#[test]
fn signal_handling_while_waiting() {
    assert_eq!(on_signal(10, 10, true), SignalDecision::Resume);
    assert_eq!(on_signal(10, 10, false), SignalDecision::KeepWaiting);
    assert_eq!(on_signal(15, 10, true), SignalDecision::Interrupt(15));
}
