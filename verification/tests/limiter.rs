use rustgate::clock::Moment;
use rustgate::limiter::{shard_index, Bucket, RateLimiter};

const SEC: u64 = 1_000_000_000;

/// The moment `secs` seconds ago, on the clock of the limiter.
fn past(rl: &RateLimiter, secs: u64) -> Moment {
    rl.clock.now().checked_sub_nanos(secs * SEC).unwrap()
}

fn at(nanos: i128) -> Moment {
    Moment::from_nanos(nanos).unwrap()
}

/// A bucket that was refilled and asked for last at one moment.
fn idle_since(tokens: u32, nanos: i128) -> Bucket {
    Bucket { tokens, last: at(nanos), seen: at(nanos) }
}

#[test]
fn token_bucket_capacity_limits_burst() {
    let mut rl = RateLimiter::new(2, 0);

    assert!(!rl.check("1.1.1.1"));
    assert!(!rl.check("1.1.1.1"));
    assert!(rl.check("1.1.1.1"));
    assert!(!rl.check("2.2.2.2"));
}

#[test]
fn tokens_left_reports_remaining() {
    let mut rl = RateLimiter::new(3, 0);
    assert_eq!(rl.tokens_left("1.1.1.1"), 3);
    rl.check("1.1.1.1");
    assert_eq!(rl.tokens_left("1.1.1.1"), 2);
}

#[test]
fn shard_index_spreads_across_shards() {
    let mut seen = std::collections::HashSet::new();
    for i in 0..32 {
        seen.insert(shard_index(&format!("10.0.0.{i}")));
    }
    assert!(seen.len() >= 2, "only {} shards were used", seen.len());
}

#[test]
fn tokens_left_unknown_ip_returns_capacity() {
    let rl = RateLimiter::new(7, 0);
    assert_eq!(rl.tokens_left("9.9.9.9"), 7);
}

#[test]
fn stale_buckets_are_cleaned_after_interval() {
    let mut rl = RateLimiter::new(10, 0);
    let idx = shard_index("1.2.3.4");
    let old = past(&rl, 400);
    let swept = past(&rl, 11);
    for i in 0..80 {
        rl.shards[idx]
            .buckets
            .insert(&format!("10.0.{}.{i}", i / 250), Bucket { tokens: 1, last: old, seen: old });
    }
    rl.shards[idx].last_cleanup = swept;
    assert_eq!(rl.shards[idx].buckets.len(), 80);

    assert!(!rl.check("1.2.3.4"));

    assert!(
        rl.shards[idx].buckets.len() <= 1,
        "{} buckets are left",
        rl.shards[idx].buckets.len()
    );
}

#[test]
fn cleanup_does_not_remove_active_buckets() {
    let mut rl = RateLimiter::new(10, 0);
    let idx = shard_index("1.2.3.4");
    let now = rl.clock.now();
    let old = past(&rl, 400);
    let swept = past(&rl, 11);
    for i in 0..80 {
        let ip = if i == 0 {
            "1.2.3.4".to_string()
        } else {
            format!("10.0.{}.{i}", i / 250)
        };
        let last = if i % 2 == 0 { now } else { old };
        rl.shards[idx].buckets.insert(&ip, Bucket { tokens: 1, last, seen: last });
    }
    rl.shards[idx].last_cleanup = swept;

    rl.check("1.2.3.4");

    assert_eq!(rl.shards[idx].buckets.len(), 40);
}

#[test]
fn refill_restores_tokens_over_time() {
    let mut rl = RateLimiter::new(10, 1000);
    assert!(!rl.check_at("1.2.3.4", at(0)));
    assert_eq!(rl.tokens_left("1.2.3.4"), 9);

    assert!(!rl.check_at("1.2.3.4", at(15_000_000)));
    assert_eq!(rl.tokens_left("1.2.3.4"), 9);
}

#[test]
fn partial_refill_without_cap_clamp_distinguishes_arithmetic() {
    let mut rl = RateLimiter::new(100, 1000);
    for _ in 0..50 {
        rl.check_at("1.2.3.4", at(0));
    }
    assert_eq!(rl.tokens_left("1.2.3.4"), 50);

    rl.check_at("1.2.3.4", at(3_000_000));
    let left = rl.tokens_left("1.2.3.4");
    assert!((51..90).contains(&left), "{left} tokens are left");
    assert_eq!(left, 52);
}

#[test]
fn cleanup_requires_both_size_and_interval() {
    let mut rl = RateLimiter::new(10, 0);
    let idx = shard_index("1.2.3.4");
    let now = rl.clock.now();
    let old = past(&rl, 400);
    let swept = past(&rl, 11);
    for i in 0..5 {
        let last = if i == 0 { old } else { now };
        rl.shards[idx]
            .buckets
            .insert(&format!("10.0.0.{i}"), Bucket { tokens: 1, last, seen: last });
    }
    rl.shards[idx].last_cleanup = swept;

    rl.check("1.2.3.4");

    assert_eq!(rl.shards[idx].buckets.len(), 6);
}

#[test]
fn a_large_shard_is_not_swept_again_at_once() {
    let mut rl = RateLimiter::new(10, 0);
    let idx = shard_index("1.2.3.4");
    for i in 0..80 {
        rl.shards[idx]
            .buckets
            .insert(&format!("10.0.0.{i}"), idle_since(1, -400 * SEC as i128));
    }
    rl.shards[idx].last_cleanup = at(0);
    rl.check_at("1.2.3.4", at(10 * SEC as i128 - 1));
    assert_eq!(rl.shards[idx].buckets.len(), 81);
    rl.check_at("1.2.3.4", at(10 * SEC as i128));
    assert_eq!(rl.shards[idx].buckets.len(), 1);
}

#[test]
fn idle_means_exactly_the_time_to_live() {
    let b = Bucket { tokens: 1, last: at(-500 * SEC as i128), seen: at(0) };
    assert!(b.is_fresh(at(300 * SEC as i128 - 1)));
    assert!(!b.is_fresh(at(300 * SEC as i128)));
}

#[test]
fn parts_of_a_token_are_not_lost() {
    // Two tokens a second: after 0.4 s there is nothing to add and the time stands; after
    // 0.8 s there is one.
    let mut b = idle_since(0, 0);
    assert!(b.take(at(400_000_000), 10, 2));
    assert_eq!(b.last.nanos(), 0);
    assert!(!b.take(at(800_000_000), 10, 2));
    assert_eq!(b.tokens, 0);
    assert_eq!(b.last.nanos(), 800_000_000);
}

#[test]
fn refill_stops_at_the_capacity_however_long_it_takes() {
    let mut b = idle_since(3, 0);
    assert!(!b.take(at(1_000_000 * SEC as i128), 5, u32::MAX));
    assert_eq!(b.tokens, 4);
}

#[test]
fn a_clock_that_stands_back_adds_nothing() {
    let mut b = idle_since(1, SEC as i128);
    assert!(!b.take(at(0), 5, 1000));
    assert!(b.take(at(0), 5, 1000));
    assert_eq!(b.last.nanos(), SEC as i128);
}

#[test]
fn rate_is_bounded_in_a_window() {
    // One second at ten tokens a second on a bucket of five: at most fifteen pass.
    let mut rl = RateLimiter::new(5, 10);
    let mut passed = 0;
    for i in 0..1000i128 {
        if !rl.check_at("1.2.3.4", at(i * 1_000_000)) {
            passed += 1;
        }
        rl.check_at("5.6.7.8", at(i * 1_000_000));
    }
    assert!(passed <= 15, "{passed} passed");
    assert_eq!(passed, 14);
}

#[test]
fn others_keep_their_tokens() {
    let mut rl = RateLimiter::new(5, 0);
    rl.check_at("5.6.7.8", at(0));
    for _ in 0..20 {
        rl.check_at("1.2.3.4", at(1));
    }
    assert_eq!(rl.tokens_left("5.6.7.8"), 4);
    assert_eq!(rl.tokens_left("1.2.3.4"), 0);
}

#[test]
fn an_address_that_keeps_asking_is_not_forgotten() {
    // Without a refill the moment of the last refill stays, but the requests keep the
    // bucket: it is not swept, and the address does not get a full one again.
    let mut rl = RateLimiter::new(2, 0);
    let idx = shard_index("1.2.3.4");
    for i in 0..80 {
        rl.shards[idx].buckets.insert(&format!("10.0.0.{i}"), idle_since(1, 0));
    }
    rl.shards[idx].last_cleanup = at(0);
    for minute in 0..20 {
        let over = rl.check_at("1.2.3.4", at(minute * 60 * SEC as i128));
        assert_eq!(over, minute >= 2, "minute {minute}");
    }
    assert_eq!(rl.shards[idx].buckets.len(), 1);
    assert_eq!(rl.tokens_left("1.2.3.4"), 0);
    // The others were idle for five minutes, and went.
    assert_eq!(rl.tokens_left("10.0.0.1"), 2);
}

#[test]
fn a_request_without_a_token_is_seen_too() {
    let mut b = idle_since(0, 0);
    assert!(b.take(at(200 * SEC as i128), 2, 0));
    assert_eq!((b.last.nanos(), b.seen.nanos()), (0, 200 * SEC as i128));
    assert!(b.is_fresh(at(400 * SEC as i128)));
}

#[test]
fn a_new_limiter_gives_a_burst_of_its_capacity() {
    let mut rl = RateLimiter::new(3, 0);
    assert!(rl.shards.iter().all(|s| s.buckets.len() == 0 && s.last_cleanup.nanos() == 0));
    for i in 0..10i128 {
        assert_eq!(rl.check_at("1.2.3.4", at(i * SEC as i128)), i >= 3);
        assert_eq!(rl.tokens_left("1.2.3.4") as i128, if i < 3 { 2 - i } else { 0 });
        for j in 0..100 {
            rl.check_at(&format!("10.0.0.{j}"), at(i * SEC as i128));
        }
    }
}

#[test]
fn a_refill_of_a_new_limiter_stops_at_the_capacity() {
    let mut rl = RateLimiter::new(5, u32::MAX);
    assert!(!rl.check_at("1.2.3.4", at(0)));
    assert!(!rl.check_at("1.2.3.4", at(2 * SEC as i128)));
    assert_eq!(rl.tokens_left("1.2.3.4"), 4);
}
