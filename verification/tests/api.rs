use rustgate::api::{
    access_by, authorize, block, block_at, constant_time_eq, default_block_secs, index_headers,
    refusal, stream_step, token_too_large, unauthorized, unblock, Access, BlockAnswer, StreamAction,
    StreamEvent, UnblockAnswer,
};
use rustgate::block::BlockList;
use rustgate::clock::Moment;

fn bearer(token: Option<&str>) -> hyper::HeaderMap {
    let mut h = hyper::HeaderMap::new();
    if let Some(t) = token {
        h.insert("authorization", format!("Bearer {t}").parse().unwrap());
    }
    h
}

fn status(path: &str, query: Option<&str>, token: Option<&str>) -> u16 {
    match refusal(authorize(path, query, &bearer(token), "test-token")) {
        Some(reply) => reply.status,
        None => 200,
    }
}

#[test]
fn web_ui_sets_security_headers() {
    assert_eq!(status("/", None, None), 200);
    let headers = index_headers();
    let get = |name: &str| headers.iter().find(|h| h.0 == name).unwrap().1;
    assert_eq!(get("x-frame-options"), "DENY");
    assert_eq!(get("x-content-type-options"), "nosniff");
    assert_eq!(get("referrer-policy"), "no-referrer");
    assert!(get("content-security-policy").contains("frame-ancestors 'none'"));
}

#[test]
fn rest_api_requires_bearer_token() {
    assert_eq!(status("/api/stats", None, None), 401);
    assert_eq!(status("/api/stats", None, Some("wrong")), 401);
    assert_eq!(status("/api/stats", None, Some("tesu-token")), 401);
    assert_eq!(status("/api/stats", None, Some("test-token")), 200);
}

#[test]
fn rest_api_rejects_query_token() {
    assert_eq!(status("/api/stats", Some("token=test-token"), None), 401);
}

#[test]
fn block_management_endpoints_require_token() {
    assert_eq!(status("/api/blocked", None, None), 401);
    assert_eq!(status("/api/block/203.0.113.7", None, None), 401);
}

#[test]
fn block_and_unblock_endpoints_work() {
    let mut list = BlockList::new();
    assert_eq!(status("/api/block", None, None), 401);

    let r = block(&mut list, "203.0.113.7", 300);
    assert_eq!(r.status(), 200);
    assert!(matches!(&r, BlockAnswer::Blocked(e) if e.ip == "203.0.113.7"));

    assert_eq!(block(&mut list, "not-an-ip", 300).status(), 400);
    assert_eq!(block(&mut list, "203.0.113.7", 0).status(), 400);
    assert_eq!(block(&mut list, "203.0.113.7", 18446744073709551615).status(), 400);
    assert_eq!(block(&mut list, &"a".repeat(100), 300).status(), 400);

    assert!(list.list().iter().any(|e| e.ip == "203.0.113.7"));

    assert_eq!(unblock(&mut list, "203.0.113.7").status(), 200);
    assert_eq!(unblock(&mut list, "203.0.113.7").status(), 404);
    assert!(!list.list().iter().any(|e| e.ip == "203.0.113.7"));
}

#[test]
fn stream_takes_the_token_from_the_query() {
    assert_eq!(status("/ws/alerts", Some("token=test-token"), None), 200);
    assert_eq!(status("/ws/alerts", Some("a&b=1&token=test-token&token=x"), None), 200);
    assert_eq!(status("/ws/alerts", Some("token=x&token=test-token"), None), 401);
    assert_eq!(status("/ws/alerts", None, Some("test-token")), 401);
    assert_eq!(status("/ws/alerts", Some("tokens=test-token"), None), 401);
}

#[test]
fn large_tokens_are_refused_unread() {
    let long = "x".repeat(4097);
    assert_eq!(status("/api/stats", None, Some(&long)), 413);
    assert_eq!(status("/api/stats", None, Some(&long[1..])), 401);
    assert_eq!(
        token_too_large().body,
        r#"{"error":"Token too large (max 4096 bytes)"}"#
    );
    assert_eq!(unauthorized().body, r#"{"error":"unauthorized"}"#);
    for access in [Access::Unauthorized, Access::TokenTooLarge] {
        assert_eq!(refusal(access).unwrap().content_type, "application/json");
    }
}

#[test]
fn bearer_is_spelled_exactly() {
    assert_eq!(access_by("/x", None, Some("Bearer t"), "t"), Access::Granted);
    assert_eq!(access_by("/x", None, Some("bearer t"), "t"), Access::Unauthorized);
    assert_eq!(access_by("/x", None, Some("Bearer  t"), "t"), Access::Unauthorized);
    assert_eq!(access_by("/x", None, Some("Bearer "), ""), Access::Granted);
}

#[test]
fn comparison_sees_every_byte() {
    assert!(constant_time_eq(b"", b""));
    assert!(constant_time_eq(b"abc", b"abc"));
    assert!(!constant_time_eq(b"abc", b"abd"));
    assert!(!constant_time_eq(b"bbc", b"abc"));
    assert!(!constant_time_eq(b"abc", b"ab"));
}

#[test]
fn refusals_say_why() {
    let at = Moment::from_nanos(0).unwrap();
    let mut list = BlockList::new();
    let mut why = |ip: &str, secs: u64| match block_at(&mut list, ip, secs, at, at, 0) {
        BlockAnswer::Refused(e) => e,
        BlockAnswer::Blocked(e) => format!("{}@{}", e.ip, e.expires_at),
    };
    assert_eq!(why("1.2.3.4", 0), "duration_secs 必须在 1~604800 之间");
    assert_eq!(why("1.2.3.4", 604_801), "duration_secs 必须在 1~604800 之间");
    assert_eq!(why(&"1".repeat(46), 1), "IP 长度非法");
    assert_eq!(why("x", 1), "无效 IP: x");
    assert_eq!(why("1.2.3.4", 604_800), "1.2.3.4@604800");
    assert_eq!(default_block_secs(), 300);
    let r = unblock(&mut list, "y");
    assert_eq!(r.status(), 400);
    assert_eq!(r.message().unwrap(), "无效 IP: y");
    assert_eq!(UnblockAnswer::NotBlocked.message().unwrap(), "IP 不在封禁列表");
    assert_eq!(UnblockAnswer::Freed.message(), None);
}

#[test]
fn a_block_that_would_outlast_the_clock_is_refused() {
    let end = Moment::from_nanos(9_223_372_036_854_775_807_999_999_999).unwrap();
    let mut list = BlockList::new();
    let r = block_at(&mut list, "1.2.3.4", 1, end, end, 0);
    assert!(matches!(r, BlockAnswer::Refused(e) if e == "封禁时长过大，无法计算解封时间"));
}

#[test]
fn stream_steps() {
    assert_eq!(stream_step(StreamEvent::Alert), StreamAction::SendAlert);
    assert_eq!(stream_step(StreamEvent::Heartbeat), StreamAction::SendPing);
    assert_eq!(stream_step(StreamEvent::Lagged), StreamAction::Wait);
    assert_eq!(stream_step(StreamEvent::Message), StreamAction::Wait);
    assert_eq!(stream_step(StreamEvent::Closed), StreamAction::Stop);
    assert_eq!(stream_step(StreamEvent::Gone), StreamAction::Stop);
    assert_eq!(stream_step(StreamEvent::SendFailed), StreamAction::Stop);
}
