use rustgate::bus::{Alert, AlertBus, MAX_ALERTS};
use rustgate::clock::Moment;
use rustgate::gate::bad_gateway_response;

fn sample_alert() -> Alert {
    Alert::new(
        "1.2.3.4",
        "GET",
        "/?a=1%20union%20select",
        "sqli",
        "rule #1",
        1,
        20,
    )
}

fn at(nanos: i128) -> Moment {
    Moment::from_nanos(nanos).unwrap()
}

#[test]
fn consecutive_duplicates_are_dropped() {
    let mut bus = AlertBus::new();

    let _ = bus.publish(sample_alert());
    let _ = bus.publish(sample_alert());
    let mut other = sample_alert();
    other.path = "/?a=2".into();
    let _ = bus.publish(other);

    let stats = bus.stats();
    assert_eq!(stats.blocked, 3);

    let recent = bus.recent_alerts(100);
    assert_eq!(recent.len(), 2);
    assert_eq!(recent[0].count, 1);
    assert_eq!(recent[1].count, 2);
}

#[test]
fn non_consecutive_same_alert_keeps_both() {
    let mut bus = AlertBus::new();
    let _ = bus.publish(sample_alert());
    let mut other = sample_alert();
    other.path = "/?x".into();
    let _ = bus.publish(other);
    let _ = bus.publish(sample_alert());

    assert_eq!(bus.recent_alerts(100).len(), 3);
}

#[test]
fn block_response_hides_rule_details() {
    let resp = Alert::block_response(403);
    assert_eq!(resp.status, 403);

    let text = resp.body;
    assert_eq!(text, r#"{"action":"block"}"#);
    assert_eq!(resp.content_type, "application/json");
    for leaked in ["union select", "rule_id", "\"score\"", "\"hits\""] {
        assert!(!text.contains(leaked), "{leaked}");
    }
}

#[test]
fn bad_gateway_response_hides_error_details() {
    let resp = bad_gateway_response();
    assert_eq!(resp.status, 502);
    assert_eq!(resp.body, "Bad Gateway");
    assert_eq!(resp.content_type, "text/plain; charset=utf-8");
    assert!(!resp.body.contains("127.0.0.1"));
}

#[test]
fn default_bus_starts_empty() {
    let bus = AlertBus::default();
    let s = bus.stats();
    assert_eq!(s.total_requests, 0);
    assert_eq!(s.blocked, 0);
    assert!((s.qps as f64) < f64::EPSILON, "{}", s.qps);
    assert!(bus.recent_alerts(10).is_empty());
}

#[test]
fn alerts_history_capped_at_max() {
    let mut bus = AlertBus::new();
    for i in 0..(MAX_ALERTS + 50) {
        let mut a = sample_alert();
        a.path = format!("/?i={i}");
        let _ = bus.publish(a);
    }
    assert_eq!(bus.recent_alerts(10000).len(), MAX_ALERTS);
    assert_eq!(bus.stats().blocked, (MAX_ALERTS + 50) as u64);
    assert_eq!(bus.recent_alerts(1)[0].path, "/?i=549");
    assert_eq!(bus.recent_alerts(MAX_ALERTS)[MAX_ALERTS - 1].path, "/?i=50");
}

#[test]
fn stats_prunes_stale_window_entries() {
    let mut bus = AlertBus::new();
    let stale = bus.clock.now().checked_sub_nanos(5_000_000_000).unwrap();
    bus.inner.request_times.push_back(stale);
    let s = bus.stats();
    assert!((s.qps as f64) < f64::EPSILON, "{}", s.qps);
}

#[test]
fn stats_reflects_published_alerts() {
    let mut bus = AlertBus::new();
    let alert = Alert::new(
        "1.2.3.4",
        "GET",
        "/?q=union+select",
        "sqli",
        "rule #1",
        1,
        20,
    );
    let _ = bus.publish(alert);
    bus.count_request();

    let s = bus.stats();
    assert_eq!(s.total_requests, 1);
    assert_eq!(s.blocked, 1);
    let recent = bus.recent_alerts(100);
    assert_eq!(recent.len(), 1);
    assert_eq!(recent[0].category, "sqli");
}

#[test]
fn publish_tells_whether_the_alert_is_new() {
    let mut bus = AlertBus::new();
    assert!(bus.publish(sample_alert()));
    assert!(!bus.publish(sample_alert()));
    assert!(!bus.publish(sample_alert()));
    assert_eq!(bus.recent_alerts(1)[0].count, 3);
}

#[test]
fn a_full_count_is_not_lost() {
    let mut bus = AlertBus::new();
    let mut a = sample_alert();
    a.count = u32::MAX;
    assert!(bus.publish(a));
    assert!(!bus.publish(sample_alert()));
    assert_eq!(bus.stats().blocked, 2);
    assert_eq!(bus.recent_alerts(1)[0].count, u32::MAX);
}

#[test]
fn dedup_key_leaves_time_and_score_out() {
    let a = Alert::at(5, "1.2.3.4", "GET", "/x", "sqli", "rule #1", 1, 20);
    let b = Alert::at(9, "1.2.3.4", "GET", "/x", "sqli", "rule #1", 2, 30);
    assert_eq!(a.dedup_key(), "1.2.3.4|GET|/x|sqli|rule #1");
    assert_eq!(a.dedup_key(), b.dedup_key());
    assert_eq!(a.action, "block");
    assert_eq!(a.count, 1);
    assert!(a.hits.is_empty());
}

#[test]
fn requests_count_for_one_second() {
    let mut bus = AlertBus::new();
    for i in 0..10 {
        bus.count_request_at(at(i * 200_000_000));
    }
    // At 1.8 s the window starts at 0.8 s: 0.8, 1.0, 1.2, 1.4, 1.6 and 1.8.
    assert_eq!(bus.stats_at(at(1_800_000_000)).qps, 6);
    assert_eq!(bus.inner.request_times.len(), 6);
    assert_eq!(bus.stats_at(at(2_800_000_000)).qps, 1);
    assert_eq!(bus.stats_at(at(2_800_000_001)).qps, 0);
    assert_eq!(bus.stats_at(at(0)).total_requests, 10);
}

#[test]
fn alert_is_stamped_with_the_present() {
    let now = std::time::SystemTime::now()
        .duration_since(std::time::UNIX_EPOCH)
        .unwrap()
        .as_secs();
    let a = sample_alert();
    assert!(a.time >= now && a.time <= now + 5, "{}", a.time);
}

#[test]
fn counts_are_those_of_all_events() {
    let sec = 1_000_000_000i128;
    let mut bus = AlertBus::new();
    for i in 0..40i128 {
        bus.count_request_at(at(i * sec / 10));
        if i % 4 == 0 {
            bus.publish(sample_alert());
        }
    }
    // The requests from 2.9 s to 3.9 s are those of the last second.
    let s = bus.stats_at(at(39 * sec / 10));
    assert_eq!((s.total_requests, s.blocked, s.qps), (40, 10, 11));
    let kept = bus.recent_alerts(10);
    assert_eq!((kept.len(), kept[0].count), (1, 10));
}

#[test]
fn the_latest_alerts_are_kept_with_their_repetitions() {
    let mut bus = AlertBus::new();
    for i in 0..600u32 {
        for _ in 0..=(i % 3) {
            let mut a = sample_alert();
            a.path = format!("/{i}");
            bus.publish(a);
        }
    }
    let kept = bus.recent_alerts(1000);
    assert_eq!(kept.len(), 500);
    for (k, a) in kept.iter().enumerate() {
        let i = 599 - k as u32;
        assert_eq!((a.path.as_str(), a.count), (format!("/{i}").as_str(), i % 3 + 1));
    }
    assert_eq!(bus.stats_at(at(0)).blocked, 1200);
}
