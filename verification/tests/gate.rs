use rustgate::audit::{
    audit_dir_for, audit_line, audit_path_for, rotate_audit_in, rules_path, settings_path,
    should_rotate, FileStep,
};
use rustgate::block::BlockList;
use rustgate::body::{BodyAction, BodyEvent, BodyScan, BODY_INSPECT_LIMIT};
use rustgate::bus::AlertBus;
use rustgate::config::{Config, Rule, RuleField};
use rustgate::engine::{Engine, EngineError};
use rustgate::gate::{
    begin_at, judge_at, proceed, report_and_block, resume, screen, screen_at, Next, Readings,
    RequestParts,
};
use rustgate::limiter::RateLimiter;
use rustgate::clock::Moment;
use rustgate::reload::{fingerprint, install_reloaded, poll, reload_runtime};
use std::collections::HashMap;
use std::time::Duration;

fn at(nanos: i128) -> Moment {
    Moment::from_nanos(nanos).unwrap()
}

fn readings() -> Readings {
    Readings { bus: at(1), list: at(1), limiter: at(1) }
}

fn config(capacity: u32, refill: u32, pattern: &str) -> Config {
    Config {
        score_threshold: 30,
        cc_capacity: capacity,
        cc_refill_per_sec: refill,
        rules: vec![
            Rule {
                id: 7,
                name: "sqli".into(),
                category: "sqli".into(),
                field: RuleField::Args,
                header: None,
                pattern: pattern.into(),
                score: 20,
            },
            Rule {
                id: 8,
                name: "url".into(),
                category: "url".into(),
                field: RuleField::Url,
                header: None,
                pattern: "regex:select".into(),
                score: 15,
            },
        ],
    }
}

#[test]
fn rotate_audit_shifts_files_and_drops_oldest() {
    let base = "/tmp/rg";
    let path = audit_path_for(base);
    let mut files: HashMap<String, String> = HashMap::new();
    files.insert(path.clone(), "current".into());
    files.insert(format!("{path}.1"), "old1".into());
    files.insert(format!("{path}.5"), "old5".into());

    for step in rotate_audit_in(base) {
        match step {
            FileStep::Remove(p) => {
                files.remove(&p);
            }
            FileStep::Rename(from, to) => {
                if let Some(content) = files.remove(&from) {
                    files.insert(to, content);
                }
            }
        }
    }

    assert_eq!(files.get(&format!("{path}.1")).unwrap(), "current");
    assert_eq!(files.get(&format!("{path}.2")).unwrap(), "old1");
    assert!(!files.contains_key(&path));
    assert_eq!(files.len(), 2);
}

#[test]
fn paths_of_a_directory() {
    assert_eq!(rules_path("/d"), "/d/rules.toml");
    assert_eq!(settings_path("/d"), "/d/settings");
    assert_eq!(audit_dir_for("/d"), "/d/log");
    assert_eq!(audit_path_for("/d"), "/d/log/audit.jsonl");
    assert_eq!(audit_line("{}"), "{}\n");
    assert!(!should_rotate(10 * 1024 * 1024 - 1));
    assert!(should_rotate(10 * 1024 * 1024));
}

#[test]
fn reload_runtime_rebuilds_limiter_with_new_cc_params() {
    let cfg = Config {
        score_threshold: 30,
        cc_capacity: 42,
        cc_refill_per_sec: 7,
        rules: vec![],
    };
    let runtime = reload_runtime(cfg).unwrap();
    assert!(!runtime.engine.needs_body());
    assert_eq!(runtime.limiter.tokens_left("1.1.1.1"), 42);
}

#[test]
fn a_failed_reload_keeps_the_old_runtime() {
    let mut runtime = reload_runtime(config(5, 0, "a")).unwrap();
    let bad = reload_runtime(config(9, 0, "regex:["));
    assert!(matches!(bad, Err(EngineError::Regex { rule: 0, .. })));
    assert!(!install_reloaded(&mut runtime, bad));
    assert_eq!(runtime.limiter.tokens_left("1.1.1.1"), 5);
    assert!(install_reloaded(&mut runtime, reload_runtime(config(9, 0, "b"))));
    assert_eq!(runtime.limiter.tokens_left("1.1.1.1"), 9);
}

#[test]
fn rules_are_read_when_the_file_changes() {
    let a = fingerprint(b"one", 3, Some(5));
    let same = fingerprint(b"one", 3, Some(5));
    let other = fingerprint(b"two", 3, Some(5));
    let touched = fingerprint(b"one", 3, None);
    assert_eq!(a, same);
    assert_ne!(a.hash, other.hash);
    assert_eq!(poll(Some(a), Some(same)), (Some(a), false));
    assert_eq!(poll(Some(a), Some(other)), (Some(other), true));
    assert_eq!(poll(Some(a), Some(touched)), (Some(touched), true));
    assert_eq!(poll(Some(a), None), (None, false));
    assert_eq!(poll(None, Some(a)), (Some(a), true));
    assert_eq!(poll(None, None), (None, false));
}

#[test]
fn screening_goes_in_order() {
    let mut bus = AlertBus::new();
    let mut list = BlockList::new();
    let mut limit = RateLimiter::new(1, 0);
    list.block_at("9.9.9.9", Duration::from_secs(60), at(0), at(0), 0)
        .unwrap();

    let r = screen_at(&mut bus, &mut list, &mut limit, false, "9.9.9.9", "GET", "/u", readings(), 5).unwrap();
    assert_eq!(r.status, 400);
    assert_eq!(r.alert.category, "smuggling");
    assert_eq!(r.alert.detail, "Content-Length/Transfer-Encoding 边界冲突");
    assert_eq!((r.alert.time, r.alert.path.as_str()), (5, "/u"));

    let r = screen_at(&mut bus, &mut list, &mut limit, true, "9.9.9.9", "GET", "/u", readings(), 5).unwrap();
    assert_eq!((r.status, r.alert.category.as_str()), (403, "block"));
    assert_eq!(r.alert.detail, "IP 已封禁");
    assert_eq!(limit.tokens_left("9.9.9.9"), 1);

    assert!(screen_at(&mut bus, &mut list, &mut limit, true, "8.8.8.8", "GET", "/u", readings(), 5).is_none());
    let r = screen_at(&mut bus, &mut list, &mut limit, true, "8.8.8.8", "GET", "/u", readings(), 5).unwrap();
    assert_eq!((r.status, r.alert.category.as_str()), (429, "cc"));
    assert_eq!(r.alert.detail, "IP 频率超限");
    assert_eq!(bus.stats_at(at(1)).total_requests, 4);
}

fn parts(method: &str, uri: &str) -> RequestParts {
    let u: hyper::Uri = uri.parse().unwrap();
    RequestParts {
        method: method.into(),
        uri: uri.into(),
        path_and_query: u.path_and_query().map(|p| p.as_str().to_string()),
        query: u.query().map(|q| q.to_string()),
    }
}

#[test]
fn requests_go_their_way() {
    let mut bus = AlertBus::new();
    let mut list = BlockList::new();
    let mut limit = RateLimiter::new(5, 0);
    let engine = Engine::new(config(1, 1, "union select")).unwrap();
    let mut h = hyper::HeaderMap::new();
    h.insert("accept", "a".parse().unwrap());

    let p = parts("GET", "/x?y");
    assert!(screen(&mut bus, &mut list, &mut limit, &h, &p, "1.1.1.1").is_none());
    match proceed(&engine, &h, &p, "1.1.1.1", "http://b") {
        Next::Forward(plan) => {
            assert_eq!(plan.target, "http://b/x?y");
            assert_eq!(plan.fields.len(), 2);
        }
        _ => panic!("the request is to go on"),
    }

    let p = parts("GET", "/?union+select");
    assert!(screen(&mut bus, &mut list, &mut limit, &h, &p, "1.1.1.1").is_none());
    match proceed(&engine, &h, &p, "1.1.1.1", "http://b") {
        Next::Refuse(f) => assert_eq!((f.status, f.alert.rule_id), (403, 7)),
        _ => panic!("the request is to be refused"),
    }

    h.insert("content-length", "x".parse().unwrap());
    let p = parts("GET", "/");
    let f = screen(&mut bus, &mut list, &mut limit, &h, &p, "1.1.1.1").unwrap();
    assert_eq!(f.status, 400);
    assert_eq!(bus.stats().total_requests, 3);
    assert_eq!(bus.stats().qps, 3);
    assert_eq!(limit.tokens_left("1.1.1.1"), 3);
}

#[test]
fn bodies_are_read_where_a_rule_needs_them() {
    let mut bus = AlertBus::new();
    let mut list = BlockList::new();
    let mut limit = RateLimiter::new(5, 0);
    let mut cfg = config(1, 1, "union select");
    cfg.rules[0].field = RuleField::Body;
    cfg.score_threshold = 20;
    let engine = Engine::new(cfg).unwrap();
    let h = hyper::HeaderMap::new();
    let p = parts("POST", "/");
    let r = begin_at(
        &mut bus, &mut list, &mut limit, &engine, &h, &p, "1.1.1.1", "http://b", readings(), 1,
    );
    assert!(matches!(r, Next::ReadBody));
    assert!(matches!(proceed(&engine, &h, &p, "1.1.1.1", "http://b"), Next::ReadBody));
    assert!(matches!(resume(&engine, &h, &p, "1.1.1.1", "http://b", "harmless"), Next::Forward(_)));
    assert!(matches!(
        resume(&engine, &h, &p, "1.1.1.1", "http://b", "a UNION select"),
        Next::Refuse(f) if f.alert.detail == "rule #7"
    ));
}

#[test]
fn a_score_that_is_too_large_is_refused() {
    let mut cfg = config(1, 1, "a");
    cfg.rules[0].score = u32::MAX;
    let engine = Engine::new(cfg).unwrap();
    let p = parts("GET", "/select?a");
    let r = resume(&engine, &hyper::HeaderMap::new(), &p, "1.1.1.1", "http://b", "");
    assert!(matches!(r, Next::Refuse(f) if f.status == 403 && f.alert.score == u32::MAX));
}

#[test]
fn rules_refuse_with_the_first_hit() {
    let engine = Engine::new(config(1, 1, "union select")).unwrap();
    let h = hyper::HeaderMap::new();
    let r = judge_at(&engine, &h, "1.1.1.1", "GET", "/?union+select", Some("/?union+select"), Some("union+select"), "", 3)
        .unwrap();
    assert_eq!(r.status, 403);
    assert_eq!(r.alert.category, "sqli");
    assert_eq!(r.alert.detail, "rule #7");
    assert_eq!((r.alert.rule_id, r.alert.score, r.alert.time), (7, 35, 3));
    let ids: Vec<u32> = r.alert.hits.iter().map(|x| x.rule_id).collect();
    assert_eq!(ids, vec![7, 8]);
    assert!(judge_at(&engine, &h, "1.1.1.1", "GET", "/?union", Some("/?union"), Some("union"), "", 3)
        .is_none());
}

#[test]
fn refusals_are_recorded_once() {
    let mut bus = AlertBus::new();
    let mut list = BlockList::new();
    let mut limit = RateLimiter::new(0, 0);
    for n in 0..3 {
        let f = screen_at(&mut bus, &mut list, &mut limit, true, "8.8.8.8", "GET", "/u", readings(), n).unwrap();
        let (reply, fresh) = report_and_block(&mut bus, &f);
        assert_eq!(reply.status, 429);
        assert_eq!(reply.body, "{\"action\":\"block\"}");
        assert_eq!(fresh, n == 0);
    }
    let s = bus.stats();
    assert!(s.blocked <= s.total_requests);
    assert_eq!((s.blocked, s.total_requests), (3, 3));
    assert_eq!(bus.recent_alerts(10)[0].count, 3);
}

#[test]
fn the_start_of_a_body_is_kept() {
    let mut scan: BodyScan<u32> = BodyScan::new();
    assert!(scan.wants_more());
    scan.take(1, b"abc");
    assert_eq!(scan.after(BodyEvent::Frame), BodyAction::Read);
    assert_eq!(scan.head_text(), "abc");
    scan.take(2, &vec![b'x'; BODY_INSPECT_LIMIT]);
    assert!(!scan.wants_more());
    assert_eq!(scan.head.len(), BODY_INSPECT_LIMIT);
    assert_eq!(scan.after(BodyEvent::Frame), BodyAction::InspectOpen);
    assert_eq!(scan.after(BodyEvent::End), BodyAction::InspectEnded);
    assert_eq!(scan.after(BodyEvent::Failed), BodyAction::GiveUp);
    assert_eq!(scan.after(BodyEvent::TimedOut), BodyAction::GiveUp);
    assert_eq!(scan.next_frame(), Some(1));
    assert_eq!(scan.next_frame(), Some(2));
    assert_eq!(scan.next_frame(), None);
}

#[test]
fn pieces_of_a_character_make_it_whole() {
    let mut scan: BodyScan<u32> = BodyScan::new();
    scan.take(1, b"\xe4\xbd");
    scan.take(2, b"\xa0\xff");
    assert_eq!(scan.head_text(), "你\u{fffd}");
}
