use rustgate::config::{default_cc_capacity, default_cc_refill, Config, Rule, RuleField};
use rustgate::decode::decode_and_normalize;
use rustgate::engine::{
    check_rules, first_ids, judge, total_score, Engine, EngineError, Hit, NormalizedRequest, Verdict,
};

fn header_map(ua: &str) -> hyper::HeaderMap {
    let mut m = hyper::HeaderMap::new();
    m.insert("user-agent", ua.parse().unwrap());
    m
}

fn test_config(rules: Vec<Rule>) -> Config {
    Config {
        score_threshold: 20,
        cc_capacity: 100,
        cc_refill_per_sec: 10,
        rules,
    }
}

fn rule(id: u32, category: &str, field: RuleField, pattern: &str, score: u32) -> Rule {
    Rule {
        id,
        name: category.into(),
        category: category.into(),
        field,
        header: None,
        pattern: pattern.into(),
        score,
    }
}

fn from_parts(
    method: &hyper::Method,
    uri: &hyper::Uri,
    headers: &hyper::HeaderMap,
    body: &str,
) -> NormalizedRequest {
    NormalizedRequest::from_parts(
        method.as_str(),
        uri.path_and_query().map(|p| p.as_str()),
        uri.query(),
        headers,
        body,
    )
}

fn get(uri: &str) -> NormalizedRequest {
    from_parts(
        &hyper::Method::GET,
        &uri.parse().unwrap(),
        &hyper::HeaderMap::new(),
        "",
    )
}

#[test]
fn header_specific_rule_only_matches_that_header() {
    let cfg = test_config(vec![Rule {
        id: 100,
        name: "bad ua".into(),
        category: "scanner".into(),
        field: RuleField::Header,
        header: Some("User-Agent".into()),
        pattern: "badagent".into(),
        score: 25,
    }]);
    let engine = Engine::new(cfg).unwrap();

    let req = from_parts(
        &hyper::Method::GET,
        &"/".parse().unwrap(),
        &header_map("badagent/1.0"),
        "",
    );
    assert!(
        matches!(&engine.inspect(&req), Verdict::Block { hits, .. } if hits[0].category == "scanner")
    );

    let req = from_parts(
        &hyper::Method::GET,
        &"/".parse().unwrap(),
        &header_map("normal-agent"),
        "",
    );
    assert!(matches!(engine.inspect(&req), Verdict::Allow));

    let mut elsewhere = header_map("normal-agent");
    elsewhere.insert("referer", "badagent".parse().unwrap());
    let req = from_parts(&hyper::Method::GET, &"/".parse().unwrap(), &elsewhere, "");
    assert!(matches!(engine.inspect(&req), Verdict::Allow));
}

#[test]
fn percent_decode_handles_nul_bypass() {
    let (s, suspicious) = decode_and_normalize("union%00select");
    assert_eq!(s, "union select");
    assert_eq!(suspicious, 1);

    let (s, _) = decode_and_normalize("a+b");
    assert_eq!(s, "a b");
}

#[test]
fn score_accumulates_until_threshold() {
    let cfg = test_config(vec![
        Rule {
            id: 1,
            name: "a".into(),
            category: "x".into(),
            field: RuleField::Args,
            header: None,
            pattern: "alpha".into(),
            score: 8,
        },
        Rule {
            id: 2,
            name: "b".into(),
            category: "y".into(),
            field: RuleField::Args,
            header: None,
            pattern: "beta".into(),
            score: 8,
        },
    ]);
    let engine = Engine::new(cfg).unwrap();

    assert!(matches!(engine.inspect(&get("/?q=alpha")), Verdict::Allow));
    assert!(matches!(engine.inspect(&get("/?q=alpha+beta")), Verdict::Allow));
    assert!(
        matches!(engine.inspect(&get("/?q=alpha%00beta")), Verdict::Block { score, .. } if score >= 20)
    );
}

#[test]
fn literal_rules_are_ascii_case_insensitive() {
    let cfg = Config {
        score_threshold: 20,
        cc_capacity: 100,
        cc_refill_per_sec: 10,
        rules: vec![Rule {
            id: 1,
            name: "sqli".into(),
            category: "sqli".into(),
            field: RuleField::Args,
            header: None,
            pattern: "union select".into(),
            score: 20,
        }],
    };
    let engine = Engine::new(cfg).unwrap();

    assert!(
        matches!(&engine.inspect(&get("/?q=UNION+SeLeCt")), Verdict::Block { hits, .. } if hits[0].category == "sqli")
    );
}

#[test]
fn dangerous_bytes_of_a_query_count_once() {
    let req = get("/?q=alpha%00beta");
    assert_eq!(req.suspicious, 1);
    let engine = Engine::new(test_config(vec![
        rule(1, "x", RuleField::Args, "alpha", 8),
        rule(2, "y", RuleField::Args, "beta", 8),
    ]))
    .unwrap();
    match engine.inspect(&req) {
        Verdict::Block { hits, score } => {
            assert_eq!(score, 21);
            assert_eq!(hits.len(), 2);
            assert_eq!((hits[0].rule_id, hits[1].rule_id), (1, 2));
        }
        Verdict::Allow => panic!("the request is to be blocked"),
    }
}

#[test]
fn literals_that_overlap_all_hit() {
    let engine = Engine::new(test_config(vec![
        rule(1, "short", RuleField::Args, "union", 10),
        rule(2, "long", RuleField::Args, "union select", 10),
        rule(3, "inner", RuleField::Args, "ion sel", 1),
        rule(4, "other", RuleField::Args, "select *", 50),
    ]))
    .unwrap();
    match engine.inspect(&get("/?q=UNION+select")) {
        Verdict::Block { hits, score } => {
            assert_eq!(score, 21);
            let mut ids: Vec<u32> = hits.iter().map(|h| h.rule_id).collect();
            ids.sort_unstable();
            assert_eq!(ids, vec![1, 2, 3]);
        }
        Verdict::Allow => panic!("the request is to be blocked"),
    }
    let twice = Engine::new(test_config(vec![
        rule(1, "a", RuleField::Args, "union", 10),
        rule(2, "b", RuleField::Args, "union", 10),
    ]))
    .unwrap();
    assert!(matches!(
        twice.inspect(&get("/?q=union")),
        Verdict::Block { hits, score: 20 } if hits.len() == 2
    ));
}

#[test]
fn text_is_decoded_piece_by_piece() {
    let (a, b) = ("a+b\u{1}你", "%00c%e4%bd%ff%41");
    let (left, n) = decode_and_normalize(a);
    let (right, m) = decode_and_normalize(b);
    assert_eq!((left.as_str(), n), ("a b 你", 1));
    assert_eq!((right.as_str(), m), (" c\u{fffd}\u{fffd}A", 1));
    assert_eq!(decode_and_normalize(&format!("{a}{b}")), (format!("{left}{right}"), 2));
}

#[test]
fn invalid_bytes_leave_the_text_before_them() {
    for b in ["%ff", "%e4%bd", "%e4%bdA", "%c0%80", "%ed%a0%80", "%f5%80%80%80", "%f0%9f%98%00"] {
        let (right, n) = decode_and_normalize(b);
        assert!(right.contains('\u{fffd}'), "{b}");
        assert_eq!(decode_and_normalize(&format!("x你+{b}")), (format!("x你 {right}"), n), "{b}");
    }
}

#[test]
fn no_control_character_is_left() {
    let all: String = (0..=255u32).map(|b| format!("%{b:02x}")).collect();
    let (seen, n) = decode_and_normalize(&all);
    assert!(seen.chars().all(|c| !c.is_ascii_control()));
    assert_eq!(n, 30);
}

#[test]
fn the_body_does_not_matter_without_a_rule_on_it() {
    let engine = Engine::new(test_config(vec![rule(1, "x", RuleField::Url, "needle", 20)])).unwrap();
    assert!(!engine.needs_body());
    for (uri, blocked) in [("/needle", true), ("/", false)] {
        for body in ["", "needle"] {
            let req = from_parts(
                &hyper::Method::GET,
                &uri.parse().unwrap(),
                &hyper::HeaderMap::new(),
                body,
            );
            assert_eq!(matches!(engine.inspect(&req), Verdict::Block { .. }), blocked);
        }
    }
}

#[test]
fn dangerous_bytes_alone_are_suspicious() {
    let engine = Engine::new(test_config(vec![])).unwrap();
    match engine.inspect(&get("/%01%02%03%04")) {
        Verdict::Block { hits, score } => {
            assert_eq!(score, 20);
            assert_eq!(hits.len(), 1);
            assert_eq!(hits[0].rule_id, 0);
            assert_eq!(hits[0].category, "suspicious");
            assert_eq!(hits[0].score, 20);
        }
        Verdict::Allow => panic!("the request is to be blocked"),
    }
    assert!(matches!(engine.inspect(&get("/%01%02%03")), Verdict::Allow));
}

#[test]
fn decoding_is_one_layer_deep() {
    assert_eq!(decode_and_normalize("%2520"), ("%20".to_string(), 0));
    assert_eq!(decode_and_normalize("a%2"), ("a%2".to_string(), 0));
    assert_eq!(decode_and_normalize("%zz%4"), ("%zz%4".to_string(), 0));
    assert_eq!(decode_and_normalize("%41%7a"), ("Az".to_string(), 0));
    assert_eq!(decode_and_normalize("%"), ("%".to_string(), 0));
}

#[test]
fn benign_control_bytes_do_not_count() {
    assert_eq!(decode_and_normalize("a%09b%0ac%0D"), ("a b c ".to_string(), 0));
    assert_eq!(decode_and_normalize("a\u{7f}b\u{1f}"), ("a b ".to_string(), 2));
    assert_eq!(decode_and_normalize("a\tb"), ("a b".to_string(), 0));
}

#[test]
fn bytes_that_are_no_text_are_replaced() {
    assert_eq!(decode_and_normalize("%ff"), ("\u{fffd}".to_string(), 0));
    assert_eq!(decode_and_normalize("%e4%bd%a0"), ("你".to_string(), 0));
}

#[test]
fn same_rule_scores_once() {
    let engine = Engine::new(test_config(vec![rule(1, "x", RuleField::Args, "ab", 15)])).unwrap();
    assert!(matches!(engine.inspect(&get("/?q=ab+ab+AB")), Verdict::Allow));
    assert_eq!(engine.matched_rules(&get("/?q=ab+ab+AB")), vec![0]);
}

#[test]
fn literals_come_before_regular_expressions() {
    let engine = Engine::new(test_config(vec![
        rule(1, "re", RuleField::Url, "regex:a+b", 5),
        rule(2, "url", RuleField::Url, "aab", 5),
        rule(3, "args", RuleField::Args, "zz", 5),
        rule(4, "url2", RuleField::Url, "zz", 5),
        rule(5, "none", RuleField::Url, "", 50),
    ]))
    .unwrap();
    assert_eq!(engine.matched_rules(&get("/aab?zz")), vec![1, 3, 2, 0]);
    let hits = engine.collect_hits(&get("/aab?zz"));
    let ids: Vec<u32> = hits.iter().map(|h| h.rule_id).collect();
    assert_eq!(ids, vec![2, 4, 3, 1]);
}

#[test]
fn regular_expressions_mind_the_case() {
    let engine = Engine::new(test_config(vec![rule(1, "re", RuleField::Args, "regex:^ab$", 20)])).unwrap();
    assert!(matches!(engine.inspect(&get("/?ab")), Verdict::Block { .. }));
    assert!(matches!(engine.inspect(&get("/?AB")), Verdict::Allow));
}

#[test]
fn a_bad_regular_expression_is_refused() {
    let r = Engine::new(test_config(vec![
        rule(1, "ok", RuleField::Args, "regex:a", 1),
        rule(2, "bad", RuleField::Args, "regex:(", 1),
    ]));
    assert!(matches!(r, Err(EngineError::Regex { rule: 1, .. })));
}

#[test]
fn every_field_is_looked_at() {
    for (field, uri, ua, body, method) in [
        (RuleField::Url, "/needle?x", "ua", "", "GET"),
        (RuleField::Args, "/?needle", "ua", "", "GET"),
        (RuleField::Header, "/", "needle", "", "GET"),
        (RuleField::Body, "/", "ua", "a needle", "GET"),
        (RuleField::Method, "/", "ua", "", "NEEDLE"),
    ] {
        let engine = Engine::new(test_config(vec![rule(1, "x", field, "needle", 20)])).unwrap();
        let method = hyper::Method::from_bytes(method.as_bytes()).unwrap();
        let req = from_parts(&method, &uri.parse().unwrap(), &header_map(ua), body);
        assert!(matches!(engine.inspect(&req), Verdict::Block { .. }), "{field:?}");
        assert!(matches!(engine.inspect(&get("/")), Verdict::Allow), "{field:?}");
    }
}

#[test]
fn headers_are_flattened_and_joined() {
    let mut h = hyper::HeaderMap::new();
    h.append("X-A", "1".parse().unwrap());
    h.append("x-b", "2".parse().unwrap());
    h.append("x-a", "3".parse().unwrap());
    let req = from_parts(&hyper::Method::GET, &"/".parse().unwrap(), &h, "");
    assert_eq!(req.headers, "x-a=1 x-a=3 x-b=2 ");
    assert_eq!(req.field_value(RuleField::Header, Some("X-a")), "1, 3");
    assert_eq!(req.field_value(RuleField::Header, Some("x-c")), "");
    assert_eq!(req.field_value(RuleField::Url, Some("x-a")), "/");
}

#[test]
fn header_values_that_are_no_text_are_replaced() {
    let mut h = hyper::HeaderMap::new();
    h.insert("x", hyper::header::HeaderValue::from_bytes(b"a\xffb").unwrap());
    let req = from_parts(&hyper::Method::GET, &"/".parse().unwrap(), &h, "");
    assert_eq!(req.headers, "x=a\u{fffd}b ");
}

#[test]
fn engine_knows_what_it_needs() {
    let none = Engine::new(test_config(vec![rule(1, "x", RuleField::Url, "a", 1)])).unwrap();
    assert!(!none.needs_body());
    assert!(!none.needs_headers());
    let both = Engine::new(test_config(vec![
        rule(1, "x", RuleField::Body, "a", 1),
        rule(2, "x", RuleField::Header, "regex:a", 1),
    ]))
    .unwrap();
    assert!(both.needs_body());
    assert!(both.needs_headers());
}

#[test]
fn headers_are_left_out_where_no_rule_needs_them() {
    let engine = Engine::new(test_config(vec![rule(1, "x", RuleField::Url, "needle", 20)])).unwrap();
    let h = header_map("needle");
    let req = engine.normalize("GET", Some("/needle"), None, &h, "");
    assert_eq!(req.headers, "");
    assert!(matches!(engine.inspect(&req), Verdict::Block { .. }));
    let r = check_rules(&engine, "GET", Some("/needle"), None, &h, "");
    assert_eq!(r.unwrap().1, 20);
    assert!(check_rules(&engine, "GET", None, None, &h, "").is_none());
}

#[test]
fn scores_that_are_too_large_block() {
    let mut cfg = test_config(vec![
        rule(1, "x", RuleField::Url, "a", u32::MAX),
        rule(2, "y", RuleField::Args, "a", 1),
    ]);
    cfg.score_threshold = u32::MAX;
    let engine = Engine::new(cfg).unwrap();
    assert!(matches!(
        engine.inspect(&get("/?a")),
        Verdict::Block { hits, score: u32::MAX } if hits.len() == 2
    ));
    let r = check_rules(&engine, "GET", Some("/?a"), Some("a"), &hyper::HeaderMap::new(), "");
    assert_eq!(r.unwrap().1, u32::MAX);
    assert!(matches!(engine.inspect(&get("/b")), Verdict::Allow));
}

#[test]
fn judging_adds_up() {
    let hit = |score: u32| Hit { rule_id: 1, category: "x".into(), score };
    assert_eq!(total_score(2, &vec![hit(3), hit(4)]), 17);
    assert_eq!(total_score(0, &vec![hit(u32::MAX), hit(1)]), u32::MAX);
    assert_eq!(total_score(u32::MAX, &vec![]), u32::MAX);
    assert!(matches!(judge(18, 2, vec![hit(3), hit(4)]), Verdict::Allow));
    assert!(matches!(judge(17, 2, vec![hit(3), hit(4)]), Verdict::Block { score: 17, .. }));
    assert!(matches!(
        judge(u32::MAX, u32::MAX, vec![hit(1)]),
        Verdict::Block { score: u32::MAX, .. }
    ));
    // A threshold of nought blocks everything.
    assert!(matches!(judge(0, 0, vec![]), Verdict::Block { score: 0, .. }));
}

#[test]
fn ids_are_taken_once() {
    assert_eq!(first_ids(&vec![2, 0, 2, 1, 0], 3), vec![2, 0, 1]);
    assert_eq!(first_ids(&vec![], 0), Vec::<usize>::new());
}

#[test]
fn hits_tell_their_rules() {
    let engine = Engine::new(test_config(vec![
        rule(1, "x", RuleField::Url, "a", 3),
        rule(2, "y", RuleField::Url, "b", 4),
    ]))
    .unwrap();
    let hits = engine.hits_at(&vec![1, 0]);
    assert_eq!((hits[0].rule_id, hits[0].category.as_str(), hits[0].score), (2, "y", 4));
    assert_eq!((hits[1].rule_id, hits[1].category.as_str(), hits[1].score), (1, "x", 3));
}

#[test]
fn limits_have_defaults() {
    assert_eq!(default_cc_capacity(), 100);
    assert_eq!(default_cc_refill(), 10);
}
