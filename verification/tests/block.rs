use rustgate::addr::normalize_ip_str;
use rustgate::block::{BlockList, Inner, CLEANUP_INTERVAL};
use rustgate::clock::{unix_now, unix_secs, unix_secs_in, Clock, Moment, MAX_MOMENT};
use rustgate::table::Table;
use std::time::{Duration, SystemTime, UNIX_EPOCH};

const SEC: u64 = 1_000_000_000;

fn at(nanos: i128) -> Moment {
    Moment::from_nanos(nanos).unwrap()
}

#[test]
fn block_and_auto_expire() {
    let mut list = BlockList::new();
    let start = list.clock.now();
    list.block_at("::ffff:1.2.3.4", Duration::from_millis(50), start, start, 0)
        .unwrap();

    assert!(list.is_blocked_at("1.2.3.4", start));

    let later = start.checked_add(Duration::from_millis(80)).unwrap();
    assert!(!list.is_blocked_at("1.2.3.4", later));
}

#[test]
fn unblock_removes_entry() {
    let mut list = BlockList::new();
    list.block("10.0.0.8", Duration::from_secs(300)).unwrap();
    assert!(list.is_blocked("10.0.0.8"));
    assert!(list.unblock("10.0.0.8").unwrap());
    assert!(!list.is_blocked("10.0.0.8"));
}

#[test]
fn invalid_ip_is_rejected() {
    assert!(normalize_ip_str("not-an-ip").is_err());
}

#[test]
fn block_rejects_overflow_duration() {
    let mut list = BlockList::new();
    let err = list
        .block("1.2.3.4", Duration::from_secs(u64::MAX))
        .unwrap_err();
    assert!(err.contains("过大"), "{err}");
    assert!(list.list().is_empty());
}

#[test]
fn default_is_empty() {
    let mut list = BlockList::default();
    assert!(!list.is_blocked("1.2.3.4"));
    assert!(list.list().is_empty());
}

#[test]
fn block_returns_expiry_in_unix_seconds_range() {
    let mut list = BlockList::new();
    let now = std::time::SystemTime::now()
        .duration_since(std::time::UNIX_EPOCH)
        .unwrap()
        .as_secs();
    let entry = list.block("1.2.3.4", Duration::from_secs(300)).unwrap();
    assert!(
        entry.expires_at >= now + 299,
        "{} vs {}",
        entry.expires_at,
        now + 299
    );
    assert!(entry.expires_at <= now + 301, "{}", entry.expires_at);
}

#[test]
fn list_drops_expired_entries() {
    let mut list = BlockList::new();
    let start = list.clock.now();
    list.block_at("1.1.1.1", Duration::from_millis(50), start, start, 0)
        .unwrap();
    list.block_at("2.2.2.2", Duration::from_secs(300), start, start, 0)
        .unwrap();

    let later = start.checked_add(Duration::from_millis(80)).unwrap();
    let entries = list.list_at(later, later, 0);
    assert!(entries.iter().any(|e| e.ip == "2.2.2.2"));
    assert!(!entries.iter().any(|e| e.ip == "1.1.1.1"));
}

#[test]
fn maybe_sweep_reclaims_expired_never_queried_entries() {
    let now = Clock::start().now();
    let mut inner = Inner {
        map: Table::new(),
        last_cleanup: now
            .checked_sub_nanos(CLEANUP_INTERVAL as u64 + SEC)
            .unwrap(),
    };
    inner
        .map
        .insert("10.0.0.1", now.checked_sub_nanos(SEC).unwrap());
    inner.map.insert(
        "10.0.0.2",
        now.checked_add(Duration::from_secs(300)).unwrap(),
    );

    BlockList::maybe_sweep(&mut inner, now);

    assert!(!inner.map.contains_key("10.0.0.1"));
    assert!(inner.map.contains_key("10.0.0.2"));
    assert_eq!(inner.last_cleanup.nanos(), now.nanos());
}

#[test]
fn no_sweep_before_its_time() {
    let mut inner = Inner { map: Table::new(), last_cleanup: at(0) };
    inner.map.insert("10.0.0.1", at(1));
    BlockList::maybe_sweep(&mut inner, at(CLEANUP_INTERVAL as i128 - 1));
    assert!(inner.map.contains_key("10.0.0.1"));
    assert_eq!(inner.last_cleanup.nanos(), 0);
    BlockList::maybe_sweep(&mut inner, at(CLEANUP_INTERVAL as i128));
    assert!(!inner.map.contains_key("10.0.0.1"));
}

#[test]
fn block_ends_exactly_at_its_end() {
    let mut list = BlockList::new();
    list.block_at("1.2.3.4", Duration::from_secs(5), at(0), at(0), 0)
        .unwrap();
    assert!(list.is_blocked_at("1.2.3.4", at(5 * SEC as i128 - 1)));
    assert!(!list.is_blocked_at("1.2.3.4", at(5 * SEC as i128)));
}

#[test]
fn bad_texts_are_named_in_the_error() {
    let mut list = BlockList::new();
    assert_eq!(
        list.block("300.1.1.1", Duration::from_secs(1)).unwrap_err(),
        "无效 IP: 300.1.1.1"
    );
    assert_eq!(list.unblock("x").unwrap_err(), "无效 IP: x");
    assert!(!list.is_blocked("x"));
}

#[test]
fn one_address_under_all_its_texts() {
    let mut list = BlockList::new();
    list.block_at(" 2001:DB8:0:0::1 ", Duration::from_secs(5), at(0), at(0), 0)
        .unwrap();
    assert!(list.is_blocked_at("2001:db8::1", at(1)));
    assert!(list.unblock("2001:0db8:0:0:0:0:0:1").unwrap());
    assert!(!list.unblock("2001:db8::1").unwrap());
}

#[test]
fn entry_tells_the_end_in_unix_seconds() {
    let mut list = BlockList::new();
    let e = list
        .block_at("1.2.3.4", Duration::from_secs(300), at(10), at(11), 1000)
        .unwrap();
    assert_eq!(e.expires_at, 1299);
    assert_eq!(unix_secs(at(0), at(5), 77), 77);
    assert_eq!(unix_secs(at(3 * SEC as i128), at(0), u64::MAX), u64::MAX);
    assert!(unix_now() > 1_600_000_000);
}

#[test]
fn longest_block_that_fits() {
    let mut list = BlockList::new();
    let longest = Duration::from_secs(i64::MAX as u64);
    assert!(list.block_at("1.2.3.4", longest, at(0), at(0), 0).is_ok());
    let err = list
        .block_at("1.2.3.4", longest, at(SEC as i128), at(0), 0)
        .unwrap_err();
    assert_eq!(err, "封禁时长过大，无法计算解封时间");
}

#[test]
fn readings_of_the_clocks() {
    assert_eq!(unix_secs_in(Ok(Duration::from_millis(2_999))), 2);
    assert_eq!(unix_secs_in(UNIX_EPOCH.duration_since(SystemTime::now())), 0);
    assert_eq!(Moment::after_start(Duration::from_millis(3)).nanos(), 3_000_000);
    assert_eq!(Moment::after_start(Duration::from_secs(u64::MAX)).nanos(), MAX_MOMENT);
    let clock = Clock::start();
    let first = clock.now();
    assert!(!first.is_after(clock.now()));
}

#[test]
fn a_block_of_no_time_succeeds_and_is_over() {
    let mut l = BlockList::new();
    assert_eq!(l.block("::ffff:1.2.3.4", Duration::from_secs(0)).unwrap().ip, "1.2.3.4");
    assert!(!l.is_blocked("1.2.3.4"));
    assert!(l.block("1.2.3", Duration::from_secs(0)).is_err());
}

#[test]
fn the_last_word_counts() {
    let sec = 1_000_000_000i128;
    let mut l = BlockList::new();
    l.block_at("1.2.3.4", Duration::from_secs(100), at(0), at(0), 0).unwrap();
    assert!(l.is_blocked_at("1.2.3.4", at(sec)));
    assert_eq!(l.unblock("::ffff:1.2.3.4"), Ok(true));
    assert!(!l.is_blocked_at("1.2.3.4", at(2 * sec)));
    l.block_at(" 1.2.3.4 ", Duration::from_secs(60), at(3 * sec), at(0), 0).unwrap();
    l.block_at("::ffff:1.2.3.4", Duration::from_secs(5), at(4 * sec), at(0), 0).unwrap();
    // A block that fails, and questions, change nothing.
    assert!(l.block_at("1.2.3", Duration::from_secs(60), at(4 * sec), at(0), 0).is_err());
    assert!(!l.is_blocked_at("5.6.7.8", at(5 * sec)));
    assert_eq!(l.list_at(at(6 * sec), at(0), 0).len(), 1);
    assert!(l.is_blocked_at("1.2.3.4", at(9 * sec - 1)));
    assert!(!l.is_blocked_at("1.2.3.4", at(9 * sec)));
}

#[test]
fn the_list_is_that_of_the_blocked() {
    let mut l = BlockList::new();
    for ip in ["::ffff:1.2.3.4", "2001:DB8::0", "9.9.9.9"] {
        l.block_at(ip, Duration::from_secs(60), at(0), at(0), 0).unwrap();
    }
    l.unblock("9.9.9.9").unwrap();
    let mut ips: Vec<String> = l.list_at(at(1), at(1), 0).into_iter().map(|e| e.ip).collect();
    ips.sort();
    assert_eq!(ips, vec!["1.2.3.4", "2001:db8::"]);
    for ip in ips {
        assert!(l.is_blocked_at(&ip, at(1)));
    }
}
