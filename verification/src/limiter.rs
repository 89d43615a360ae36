//! A token bucket for every address.
//!
//! The buckets lie in shards, by a hash of the address, so that a sweep goes over one
//! shard only. Buckets that have been idle for long are swept out of a shard that has
//! grown large, but not on every call.

use crate::clock::{self, Clock, Moment};
use crate::table::{self, Table};
use std::collections::hash_map::DefaultHasher;
use std::hash::Hasher;
use vstd::prelude::*;
use vstd::std_specs::hash::DefaultHasherAdditionalSpecFns;

verus! {

/// A bucket that no request came to for so many nanoseconds is idle.
pub const BUCKET_IDLE_TTL: u128 = 300_000_000_000;

/// A shard is swept at most once in so many nanoseconds.
pub const CLEANUP_INTERVAL: u128 = 10_000_000_000;

/// The number of shards.
pub const SHARDS: usize = 16;

/// A shard is swept only once it holds so many buckets.
pub const SHARD_CLEANUP_THRESHOLD: usize = 64;

/// The tokens left to one address, the moment up to which they were refilled, and that of
/// the latest request, whether or not it found a token.
#[derive(Clone, Copy, Debug)]
pub struct Bucket {
    pub tokens: u32,
    pub last: Moment,
    pub seen: Moment,
}

/// Some of the buckets, and the moment of the last sweep over them.
pub struct Shard {
    pub buckets: Table<Bucket>,
    pub last_cleanup: Moment,
}

/// The contents of a shard.
#[verifier::ext_equal]
pub ghost struct ShardView {
    pub buckets: Map<Seq<char>, Bucket>,
    pub last_cleanup: Moment,
}

impl View for Shard {
    type V = ShardView;

    open spec fn view(&self) -> ShardView {
        ShardView { buckets: self.buckets@, last_cleanup: self.last_cleanup }
    }
}

/// A limit on the requests of every address: `capacity` at once, and
/// `refill_per_sec` in every second.
pub struct RateLimiter {
    pub capacity: u32,
    pub refill_per_sec: u32,
    pub shards: Vec<Shard>,
    pub clock: Clock,
}

/// The contents of a limiter.
#[verifier::ext_equal]
pub ghost struct LimiterView {
    pub capacity: u32,
    pub refill_per_sec: u32,
    pub shards: Seq<ShardView>,
}

impl View for RateLimiter {
    type V = LimiterView;

    open spec fn view(&self) -> LimiterView {
        LimiterView {
            capacity: self.capacity,
            refill_per_sec: self.refill_per_sec,
            shards: self.shards@.map_values(|s: Shard| s@),
        }
    }
}

/// No bucket holds more than the capacity.
pub open spec fn within_capacity(s: ShardView, capacity: u32) -> bool {
    forall|ip: Seq<char>| #[trigger]
        s.buckets.contains_key(ip) ==> s.buckets[ip].tokens <= capacity
}

/// The whole tokens that `nanos` nanoseconds are worth.
pub open spec fn refill(nanos: nat, per_sec: u32) -> nat {
    nanos * per_sec as nat / 1_000_000_000
}

/// The bucket after it has been refilled. Time that is worth less than a whole token
/// stays to its credit.
pub open spec fn refilled(b: Bucket, now: Moment, capacity: u32, per_sec: u32) -> Bucket {
    let more = refill(clock::elapsed(b.last@, now@), per_sec);
    if more == 0 {
        b
    } else if b.tokens + more < capacity {
        Bucket { tokens: (b.tokens + more) as u32, last: now, seen: b.seen }
    } else {
        Bucket { tokens: capacity, last: now, seen: b.seen }
    }
}

/// Whether a request with this bucket is over the limit.
pub open spec fn is_over(b: Bucket, now: Moment, capacity: u32, per_sec: u32) -> bool {
    refilled(b, now, capacity, per_sec).tokens == 0
}

/// The bucket after a request.
pub open spec fn bucket_after(b: Bucket, now: Moment, capacity: u32, per_sec: u32) -> Bucket {
    let full = refilled(b, now, capacity, per_sec);
    Bucket {
        tokens: if full.tokens == 0 {
            0
        } else {
            (full.tokens - 1) as u32
        },
        last: full.last,
        seen: now,
    }
}

/// A sweep over the shard is due.
pub open spec fn sweep_due(s: ShardView, now: Moment) -> bool {
    s.buckets.len() >= SHARD_CLEANUP_THRESHOLD && clock::elapsed(s.last_cleanup@, now@)
        >= CLEANUP_INTERVAL
}

/// The latest request to the bucket came not long ago.
pub open spec fn not_idle(b: Bucket, now: Moment) -> bool {
    clock::elapsed(b.seen@, now@) < BUCKET_IDLE_TTL
}

/// The buckets that are not idle.
pub open spec fn is_active(now: Moment) -> spec_fn(Bucket) -> bool {
    |b: Bucket| not_idle(b, now)
}

/// The shard after the sweep that may be due.
pub open spec fn swept(s: ShardView, now: Moment) -> ShardView {
    if sweep_due(s, now) {
        ShardView { buckets: table::kept(s.buckets, is_active(now)), last_cleanup: now }
    } else {
        s
    }
}

/// The bucket of an address; an address that has none has a full one.
pub open spec fn bucket_of(s: ShardView, ip: Seq<char>, now: Moment, capacity: u32) -> Bucket {
    if s.buckets.contains_key(ip) {
        s.buckets[ip]
    } else {
        Bucket { tokens: capacity, last: now, seen: now }
    }
}

/// The shard after a request from an address.
pub open spec fn shard_after(
    s: ShardView,
    ip: Seq<char>,
    now: Moment,
    capacity: u32,
    per_sec: u32,
) -> ShardView {
    let s = swept(s, now);
    ShardView {
        buckets: s.buckets.insert(
            ip,
            bucket_after(bucket_of(s, ip, now, capacity), now, capacity, per_sec),
        ),
        last_cleanup: s.last_cleanup,
    }
}

/// The shard that an address belongs to.
pub open spec fn shard_of(ip: Seq<char>) -> int {
    DefaultHasher::spec_finish(seq![crate::text::bytes_of(ip)]) as int % SHARDS as int
}

/// The limiter after a request.
pub open spec fn limiter_after(l: LimiterView, ip: Seq<char>, now: Moment) -> LimiterView {
    LimiterView {
        shards: l.shards.update(
            shard_of(ip),
            shard_after(l.shards[shard_of(ip)], ip, now, l.capacity, l.refill_per_sec),
        ),
        ..l
    }
}

/// Whether a request is over the limit.
pub open spec fn over_limit(l: LimiterView, ip: Seq<char>, now: Moment) -> bool {
    let s = swept(l.shards[shard_of(ip)], now);
    is_over(bucket_of(s, ip, now, l.capacity), now, l.capacity, l.refill_per_sec)
}

/// The tokens left to an address.
pub open spec fn tokens_of(l: LimiterView, ip: Seq<char>) -> u32 {
    let s = l.shards[shard_of(ip)];
    if s.buckets.contains_key(ip) {
        s.buckets[ip].tokens
    } else {
        l.capacity
    }
}

/// No address has a bucket, and the shards count as swept when the clock starts.
pub open spec fn is_new(l: LimiterView) -> bool {
    &&& l.shards.len() == SHARDS
    &&& forall|i: int|
        0 <= i < SHARDS ==> (#[trigger] l.shards[i]).buckets == Map::<Seq<char>, Bucket>::empty()
            && l.shards[i].last_cleanup@ == 0
}

/// The shard of an address: the hash of its text, modulo the number of shards.
pub fn shard_index(ip: &str) -> (i: usize)
    ensures
        i == shard_of(ip@),
        i < SHARDS,
{
    let mut h = DefaultHasher::new();
    h.write(ip.as_bytes());
    assert(h@ =~= seq![crate::text::bytes_of(ip@)]);
    (h.finish() % SHARDS as u64) as usize
}

impl Bucket {
    /// Whether the bucket is not idle.
    pub fn is_fresh(&self, now: Moment) -> (r: bool)
        ensures
            r == not_idle(*self, now),
    {
        now.since(self.seen) < BUCKET_IDLE_TTL
    }

    /// Refills the bucket and takes a token; `true` where there is none.
    pub fn take(&mut self, now: Moment, capacity: u32, per_sec: u32) -> (over: bool)
        ensures
            over == is_over(*old(self), now, capacity, per_sec),
            *final(self) == bucket_after(*old(self), now, capacity, per_sec),
    {
        let nanos = now.since(self.last);
        let more = refill_amount(nanos, per_sec);
        if more > 0 {
            let cap: u128 = capacity as u128;
            self.tokens = if more < cap && self.tokens as u128 + more < cap {
                self.tokens + more as u32
            } else {
                capacity
            };
            self.last = now;
        }
        self.seen = now;
        if self.tokens > 0 {
            self.tokens = self.tokens - 1;
            false
        } else {
            true
        }
    }
}

/// The whole tokens that some nanoseconds are worth.
fn refill_amount(nanos: u128, per_sec: u32) -> (n: u128)
    requires
        nanos <= clock::MAX_MOMENT - clock::MIN_MOMENT,
    ensures
        n == refill(nanos as nat, per_sec),
{
    assert(nanos * per_sec <= (clock::MAX_MOMENT - clock::MIN_MOMENT) * u32::MAX)
        by (nonlinear_arith)
        requires
            0 <= nanos <= clock::MAX_MOMENT - clock::MIN_MOMENT,
            0 <= per_sec <= u32::MAX,
    ;
    nanos * per_sec as u128 / clock::NANOS_PER_SEC
}

impl Shard {
    /// Sweeps idle buckets, if that is due.
    pub fn sweep(&mut self, now: Moment)
        requires
            old(self).buckets.wf(),
        ensures
            final(self).buckets.wf(),
            final(self)@ == swept(old(self)@, now),
    {
        if self.buckets.len() >= SHARD_CLEANUP_THRESHOLD && now.since(self.last_cleanup)
            >= CLEANUP_INTERVAL {
            let keep = |b: &Bucket| -> (r: bool)
                ensures
                    r == not_idle(*b, now),
            {
                b.is_fresh(now)
            };
            self.buckets.retain(keep, Ghost(is_active(now)));
            self.last_cleanup = now;
        }
    }

    /// Takes a token of an address; `true` where there is none.
    pub fn check(&mut self, ip: &str, now: Moment, capacity: u32, per_sec: u32) -> (over: bool)
        requires
            old(self).buckets.wf(),
        ensures
            final(self).buckets.wf(),
            final(self)@ == shard_after(old(self)@, ip@, now, capacity, per_sec),
            over == is_over(
                bucket_of(swept(old(self)@, now), ip@, now, capacity),
                now,
                capacity,
                per_sec,
            ),
    {
        self.sweep(now);
        let mut b = match self.buckets.get(ip) {
            Some(b) => *b,
            None => Bucket { tokens: capacity, last: now, seen: now },
        };
        let over = b.take(now, capacity, per_sec);
        self.buckets.insert(ip, b);
        over
    }
}

impl RateLimiter {
    /// All shards are there, and no bucket holds more than the capacity.
    pub open spec fn wf(&self) -> bool {
        &&& self.shards@.len() == SHARDS
        &&& forall|i: int|
            #![trigger self.shards@[i]]
            0 <= i < SHARDS ==> self.shards@[i].buckets.wf() && within_capacity(
                self.shards@[i]@,
                self.capacity,
            )
    }

    /// A limiter without buckets.
    pub fn new(capacity: u32, refill_per_sec: u32) -> (l: Self)
        ensures
            l.wf(),
            l@.capacity == capacity,
            l@.refill_per_sec == refill_per_sec,
            is_new(l@),
            forall|ip: Seq<char>| #[trigger] tokens_of(l@, ip) == capacity,
    {
        let clock = Clock::start();
        let mut shards: Vec<Shard> = Vec::new();
        while shards.len() < SHARDS
            invariant
                shards@.len() <= SHARDS,
                forall|i: int|
                    #![trigger shards@[i]]
                    0 <= i < shards@.len() ==> shards@[i].buckets.wf() && shards@[i].buckets@
                        == Map::<Seq<char>, Bucket>::empty() && shards@[i].last_cleanup@ == 0,
            decreases SHARDS - shards@.len(),
        {
            shards.push(Shard { buckets: Table::new(), last_cleanup: Moment::start() });
        }
        let l = RateLimiter { capacity, refill_per_sec, shards, clock };
        assert forall|i: int| 0 <= i < SHARDS implies (#[trigger] l@.shards[i]).buckets == Map::<
            Seq<char>,
            Bucket,
        >::empty() && l@.shards[i].last_cleanup@ == 0 by {
            assert(l@.shards[i] == l.shards@[i]@);
        }
        assert forall|ip: Seq<char>| #[trigger] tokens_of(l@, ip) == capacity by {
            assert(0 <= shard_of(ip) < SHARDS);
        }
        l
    }

    /// Takes a token of an address at a given moment; `true` means that the request is
    /// over the limit.
    pub fn check_at(&mut self, ip: &str, now: Moment) -> (over: bool)
        requires
            old(self).wf(),
        ensures
            final(self).wf(),
            final(self)@ == limiter_after(old(self)@, ip@, now),
            final(self).clock == old(self).clock,
            over == over_limit(old(self)@, ip@, now),
    {
        let idx = shard_index(ip);
        let capacity = self.capacity;
        let per_sec = self.refill_per_sec;
        let ghost before = self.shards@;
        assert(self@.shards[idx as int] == before[idx as int]@);
        let over = self.shards[idx].check(ip, now, capacity, per_sec);
        assert(self@.shards =~= old(self)@.shards.update(idx as int, self.shards@[idx as int]@));
        assert(within_capacity(self.shards@[idx as int]@, capacity)) by {
            assert(within_capacity(before[idx as int]@, capacity));
        }
        over
    }

    /// Takes a token of an address now; `true` means that the request is over the
    /// limit.
    pub fn check(&mut self, ip: &str) -> (over: bool)
        requires
            old(self).wf(),
        ensures
            final(self).wf(),
            final(self).clock == old(self).clock,
            exists|now: Moment|
                clock::is_reading(now) && final(self)@ == #[trigger] limiter_after(
                    old(self)@,
                    ip@,
                    now,
                ) && over == over_limit(old(self)@, ip@, now),
    {
        let now = self.clock.now();
        self.check_at(ip, now)
    }

    /// The tokens left to an address.
    pub fn tokens_left(&self, ip: &str) -> (n: u32)
        requires
            self.wf(),
        ensures
            n == tokens_of(self@, ip@),
            n <= self@.capacity,
    {
        let idx = shard_index(ip);
        assert(self@.shards[idx as int] == self.shards@[idx as int]@);
        match self.shards[idx].buckets.get(ip) {
            Some(b) => b.tokens,
            None => self.capacity,
        }
    }
}

/// The bucket after requests at some moments.
pub open spec fn bucket_run(b: Bucket, at: Seq<Moment>, capacity: u32, per_sec: u32) -> Bucket
    decreases at.len(),
{
    if at.len() == 0 {
        b
    } else {
        bucket_after(bucket_run(b, at.drop_last(), capacity, per_sec), at.last(), capacity, per_sec)
    }
}

/// How many of the requests at some moments are within the limit.
pub open spec fn bucket_passes(b: Bucket, at: Seq<Moment>, capacity: u32, per_sec: u32) -> nat
    decreases at.len(),
{
    if at.len() == 0 {
        0
    } else {
        let before = bucket_run(b, at.drop_last(), capacity, per_sec);
        bucket_passes(b, at.drop_last(), capacity, per_sec) + if is_over(
            before,
            at.last(),
            capacity,
            per_sec,
        ) {
            0nat
        } else {
            1
        }
    }
}

/// Two spans of time are together worth at least what they are worth one by one.
proof fn lemma_refill_adds(a: nat, b: nat, per_sec: u32)
    ensures
        refill(a, per_sec) + refill(b, per_sec) <= refill(a + b, per_sec),
{
    let p = per_sec as int;
    let x = a * p;
    let y = b * p;
    assert((a + b) * p == x + y) by (nonlinear_arith)
        requires
            x == a * p,
            y == b * p,
    ;
    assert(x >= 0 && y >= 0) by (nonlinear_arith)
        requires
            x == a * p,
            y == b * p,
            a >= 0,
            b >= 0,
            p >= 0,
    ;
    assert(x / 1_000_000_000 + y / 1_000_000_000 <= (x + y) / 1_000_000_000);
}

/// A longer span of time is worth no less.
proof fn lemma_refill_grows(a: nat, b: nat, per_sec: u32)
    requires
        a <= b,
    ensures
        refill(a, per_sec) <= refill(b, per_sec),
{
    lemma_refill_adds(a, (b - a) as nat, per_sec);
}

/// What one request does to the tokens of a bucket.
proof fn lemma_bucket_step(b: Bucket, now: Moment, capacity: u32, per_sec: u32)
    ensures
        ({
            let next = bucket_after(b, now, capacity, per_sec);
            &&& next.last == b.last || (next.last == now && now@ > b.last@)
            &&& next.last@ >= b.last@
            &&& next.tokens + (if is_over(b, now, capacity, per_sec) {
                0int
            } else {
                1
            }) <= b.tokens + refill((next.last@ - b.last@) as nat, per_sec)
        }),
{
    let more = refill(clock::elapsed(b.last@, now@), per_sec);
    if now@ <= b.last@ {
        assert(0 * per_sec as nat / 1_000_000_000 == 0) by (nonlinear_arith);
        assert(more == 0);
    }
    assert(0 * per_sec as nat / 1_000_000_000 == 0) by (nonlinear_arith);
}

/// In any number of requests, at any moments up to `end`, no more pass than the bucket
/// held plus what was refilled up to then.
pub proof fn law_rate_is_bounded(
    b: Bucket,
    at: Seq<Moment>,
    end: Moment,
    capacity: u32,
    per_sec: u32,
)
    requires
        b.last@ <= end@,
        forall|i: int| 0 <= i < at.len() ==> (#[trigger] at[i])@ <= end@,
    ensures
        bucket_passes(b, at, capacity, per_sec) <= b.tokens + refill(
            clock::elapsed(b.last@, end@),
            per_sec,
        ),
{
    lemma_rate_potential(b, at, end, capacity, per_sec);
    let last = bucket_run(b, at, capacity, per_sec);
    lemma_refill_grows((last.last@ - b.last@) as nat, (end@ - b.last@) as nat, per_sec);
}

proof fn lemma_rate_potential(
    b: Bucket,
    at: Seq<Moment>,
    end: Moment,
    capacity: u32,
    per_sec: u32,
)
    requires
        b.last@ <= end@,
        forall|i: int| 0 <= i < at.len() ==> (#[trigger] at[i])@ <= end@,
    ensures
        ({
            let last = bucket_run(b, at, capacity, per_sec);
            &&& b.last@ <= last.last@ <= end@
            &&& last.tokens + bucket_passes(b, at, capacity, per_sec) <= b.tokens + refill(
                (last.last@ - b.last@) as nat,
                per_sec,
            )
        }),
    decreases at.len(),
{
    if at.len() == 0 {
        assert(0 * per_sec as nat / 1_000_000_000 == 0) by (nonlinear_arith);
    } else {
        let front = at.drop_last();
        assert forall|i: int| 0 <= i < front.len() implies (#[trigger] front[i])@ <= end@ by {
            assert(front[i] == at[i]);
        }
        lemma_rate_potential(b, front, end, capacity, per_sec);
        let prior = bucket_run(b, front, capacity, per_sec);
        lemma_bucket_step(prior, at.last(), capacity, per_sec);
        let next = bucket_run(b, at, capacity, per_sec);
        lemma_refill_adds(
            (prior.last@ - b.last@) as nat,
            (next.last@ - prior.last@) as nat,
            per_sec,
        );
        assert(at[at.len() - 1]@ <= end@);
    }
}

/// Without a refill exactly as many requests pass as the bucket holds tokens.
pub proof fn law_burst_is_the_bucket(b: Bucket, at: Seq<Moment>, capacity: u32)
    ensures
        bucket_passes(b, at, capacity, 0) == if at.len() <= b.tokens {
            at.len()
        } else {
            b.tokens as nat
        },
        bucket_run(b, at, capacity, 0).tokens == if at.len() <= b.tokens {
            b.tokens - at.len()
        } else {
            0
        },
    decreases at.len(),
{
    if at.len() > 0 {
        law_burst_is_the_bucket(b, at.drop_last(), capacity);
        let prior = bucket_run(b, at.drop_last(), capacity, 0);
        let nanos = clock::elapsed(prior.last@, at.last()@);
        assert(nanos * 0nat / 1_000_000_000 == 0) by (nonlinear_arith);
        assert(refill(nanos, 0) == 0);
    }
}

/// A request of one address leaves the bucket of every other as it was, except that a
/// sweep, where one is due, takes away those in its shard that are idle; an address
/// whose bucket went has its full capacity again.
pub proof fn law_other_addresses_keep_their_buckets(
    l: LimiterView,
    ip: Seq<char>,
    other: Seq<char>,
    now: Moment,
)
    requires
        l.shards.len() == SHARDS,
        other != ip,
    ensures
        ({
            let before = l.shards[shard_of(other)].buckets;
            let after = limiter_after(l, ip, now).shards[shard_of(other)].buckets;
            let goes = shard_of(other) == shard_of(ip) && sweep_due(l.shards[shard_of(ip)], now)
                && !not_idle(before[other], now);
            &&& after.contains_key(other) <==> before.contains_key(other) && !goes
            &&& after.contains_key(other) ==> after[other] == before[other]
            &&& tokens_of(limiter_after(l, ip, now), other) == if before.contains_key(other)
                && goes {
                l.capacity
            } else {
                tokens_of(l, other)
            }
        }),
{
}

/// A request of one address does not change the tokens of any other that is not idle.
pub proof fn law_other_addresses_keep_their_tokens(
    l: LimiterView,
    ip: Seq<char>,
    other: Seq<char>,
    now: Moment,
)
    requires
        l.shards.len() == SHARDS,
        other != ip,
        l.shards[shard_of(other)].buckets.contains_key(other) ==> not_idle(
            l.shards[shard_of(other)].buckets[other],
            now,
        ),
    ensures
        tokens_of(limiter_after(l, ip, now), other) == tokens_of(l, other),
{
    law_other_addresses_keep_their_buckets(l, ip, other, now);
}

/// A sweep happens only in a shard that is large, and not soon after the one before.
pub proof fn law_no_sweep_without_size_and_interval(s: ShardView, now: Moment)
    requires
        s.buckets.len() < SHARD_CLEANUP_THRESHOLD || clock::elapsed(s.last_cleanup@, now@)
            < CLEANUP_INTERVAL,
    ensures
        swept(s, now) == s,
{
}

/// A sweep that is due keeps exactly the buckets that are not idle, so that addresses
/// seen once do not pile up, while one that keeps asking is never forgotten.
pub proof fn law_sweep_keeps_the_active(s: ShardView, now: Moment, ip: Seq<char>)
    requires
        sweep_due(s, now),
    ensures
        swept(s, now).buckets.contains_key(ip) <==> s.buckets.contains_key(ip) && not_idle(
            s.buckets[ip],
            now,
        ),
        swept(s, now).buckets.contains_key(ip) ==> swept(s, now).buckets[ip] == s.buckets[ip],
        swept(s, now).last_cleanup == now,
{
}

/// No address ever holds more tokens than the capacity.
pub proof fn law_tokens_stay_within_capacity(
    s: ShardView,
    ip: Seq<char>,
    now: Moment,
    capacity: u32,
    per_sec: u32,
)
    requires
        within_capacity(s, capacity),
    ensures
        within_capacity(shard_after(s, ip, now, capacity, per_sec), capacity),
{
}

/// The limiter after some requests.
pub open spec fn limiter_run(l: LimiterView, calls: Seq<(Seq<char>, Moment)>) -> LimiterView
    decreases calls.len(),
{
    if calls.len() == 0 {
        l
    } else {
        limiter_after(limiter_run(l, calls.drop_last()), calls.last().0, calls.last().1)
    }
}

/// How many of the requests of one address are within the limit.
pub open spec fn passes_of(
    l: LimiterView,
    calls: Seq<(Seq<char>, Moment)>,
    ip: Seq<char>,
) -> nat
    decreases calls.len(),
{
    if calls.len() == 0 {
        0
    } else {
        let (from, now) = calls.last();
        passes_of(l, calls.drop_last(), ip) + if from == ip && !over_limit(
            limiter_run(l, calls.drop_last()),
            from,
            now,
        ) {
            1nat
        } else {
            0
        }
    }
}

/// How many of the requests are those of one address.
pub open spec fn count_of(calls: Seq<(Seq<char>, Moment)>, ip: Seq<char>) -> nat
    decreases calls.len(),
{
    if calls.len() == 0 {
        0
    } else {
        count_of(calls.drop_last(), ip) + if calls.last().0 == ip {
            1nat
        } else {
            0
        }
    }
}

/// The moment of the latest request of one address.
pub open spec fn latest_of(calls: Seq<(Seq<char>, Moment)>, ip: Seq<char>) -> Option<Moment>
    decreases calls.len(),
{
    if calls.len() == 0 {
        None
    } else if calls.last().0 == ip {
        Some(calls.last().1)
    } else {
        latest_of(calls.drop_last(), ip)
    }
}

/// An address never paused, from its first request on, for the time that makes a bucket
/// idle.
pub open spec fn keeps_asking(calls: Seq<(Seq<char>, Moment)>, ip: Seq<char>) -> bool
    decreases calls.len(),
{
    calls.len() > 0 ==> {
        &&& keeps_asking(calls.drop_last(), ip)
        &&& match latest_of(calls.drop_last(), ip) {
            Some(m) => clock::elapsed(m@, calls.last().1@) < BUCKET_IDLE_TTL,
            None => true,
        }
    }
}

/// In a window that is shorter than the time that makes a bucket idle no address pauses
/// for so long.
pub proof fn law_short_windows_have_no_pause(
    calls: Seq<(Seq<char>, Moment)>,
    ip: Seq<char>,
    start: Moment,
    end: Moment,
)
    requires
        start@ <= end@ < start@ + BUCKET_IDLE_TTL,
        forall|i: int| 0 <= i < calls.len() ==> start@ <= (#[trigger] calls[i]).1@ <= end@,
    ensures
        keeps_asking(calls, ip),
        latest_of(calls, ip) matches Some(m) ==> start@ <= m@ <= end@,
    decreases calls.len(),
{
    if calls.len() > 0 {
        let front = calls.drop_last();
        assert forall|i: int| 0 <= i < front.len() implies start@ <= (#[trigger] front[i]).1@
            <= end@ by {
            assert(front[i] == calls[i]);
        }
        law_short_windows_have_no_pause(front, ip, start, end);
        assert(start@ <= calls[calls.len() - 1].1@ <= end@);
    }
}

/// Whatever requests arrive from whatever addresses between `start` and `end`, of a new
/// address that never pauses for the time that makes a bucket idle no more requests pass
/// than the capacity plus what is refilled in between.
pub proof fn law_limit_holds_for_every_address(
    l: LimiterView,
    calls: Seq<(Seq<char>, Moment)>,
    ip: Seq<char>,
    start: Moment,
    end: Moment,
)
    requires
        l.shards.len() == SHARDS,
        !l.shards[shard_of(ip)].buckets.contains_key(ip),
        start@ <= end@,
        keeps_asking(calls, ip),
        forall|i: int| 0 <= i < calls.len() ==> start@ <= (#[trigger] calls[i]).1@ <= end@,
    ensures
        passes_of(l, calls, ip) <= l.capacity + refill((end@ - start@) as nat, l.refill_per_sec),
{
    lemma_limit_potential(l, calls, ip, start, end);
    let b = limiter_run(l, calls).shards[shard_of(ip)].buckets[ip];
    if limiter_run(l, calls).shards[shard_of(ip)].buckets.contains_key(ip) {
        lemma_refill_grows(
            (b.last@ - start@) as nat,
            (end@ - start@) as nat,
            l.refill_per_sec,
        );
    }
}

/// A bucket bears the moment of the latest request of its address, whatever came before:
/// idle is an address that has not asked for long.
pub proof fn law_bucket_tells_the_latest_request(
    l: LimiterView,
    calls: Seq<(Seq<char>, Moment)>,
    ip: Seq<char>,
)
    requires
        l.shards.len() == SHARDS,
        !l.shards[shard_of(ip)].buckets.contains_key(ip),
    ensures
        ({
            let held = limiter_run(l, calls).shards[shard_of(ip)].buckets;
            held.contains_key(ip) ==> latest_of(calls, ip) == Some(held[ip].seen)
        }),
        limiter_run(l, calls).shards.len() == SHARDS,
    decreases calls.len(),
{
    if calls.len() > 0 {
        let front = calls.drop_last();
        law_bucket_tells_the_latest_request(l, front, ip);
        let (from, now) = calls.last();
        if from != ip {
            law_other_addresses_keep_their_buckets(limiter_run(l, front), from, ip, now);
        }
    }
}

/// The bucket of an address that keeps asking is that of its latest request.
spec fn holds_latest(l: LimiterView, calls: Seq<(Seq<char>, Moment)>, ip: Seq<char>) -> bool {
    let held = l.shards[shard_of(ip)].buckets;
    match latest_of(calls, ip) {
        Some(m) => held.contains_key(ip) && held[ip].seen == m,
        None => !held.contains_key(ip),
    }
}

proof fn lemma_latest_is_held(l: LimiterView, calls: Seq<(Seq<char>, Moment)>, ip: Seq<char>)
    requires
        l.shards.len() == SHARDS,
        !l.shards[shard_of(ip)].buckets.contains_key(ip),
        keeps_asking(calls, ip),
    ensures
        holds_latest(limiter_run(l, calls), calls, ip),
        limiter_run(l, calls).shards.len() == SHARDS,
        limiter_run(l, calls).capacity == l.capacity,
        limiter_run(l, calls).refill_per_sec == l.refill_per_sec,
    decreases calls.len(),
{
    if calls.len() > 0 {
        let front = calls.drop_last();
        lemma_latest_is_held(l, front, ip);
        let (from, now) = calls.last();
        if from != ip {
            law_other_addresses_keep_their_buckets(limiter_run(l, front), from, ip, now);
        }
    }
}

/// The bucket that a request of an address finds, where that address keeps asking: the
/// one that it left, or a full one where this is its first.
proof fn lemma_found_bucket(
    l: LimiterView,
    calls: Seq<(Seq<char>, Moment)>,
    ip: Seq<char>,
    now: Moment,
)
    requires
        l.shards.len() == SHARDS,
        !l.shards[shard_of(ip)].buckets.contains_key(ip),
        keeps_asking(calls.push((ip, now)), ip),
    ensures
        ({
            let held = limiter_run(l, calls).shards[shard_of(ip)];
            bucket_of(swept(held, now), ip, now, l.capacity) == if latest_of(calls, ip) is Some {
                held.buckets[ip]
            } else {
                Bucket { tokens: l.capacity, last: now, seen: now }
            }
        }),
{
    assert(calls.push((ip, now)).drop_last() =~= calls);
    lemma_latest_is_held(l, calls, ip);
}

/// Without a refill exactly as many requests of a new address pass as the capacity says:
/// whatever other addresses ask in between, the first ones pass and every later one is
/// refused, as long as the address keeps asking.
pub proof fn law_burst_is_the_capacity(
    l: LimiterView,
    calls: Seq<(Seq<char>, Moment)>,
    ip: Seq<char>,
    now: Moment,
)
    requires
        l.shards.len() == SHARDS,
        !l.shards[shard_of(ip)].buckets.contains_key(ip),
        l.refill_per_sec == 0,
        keeps_asking(calls.push((ip, now)), ip),
    ensures
        over_limit(limiter_run(l, calls), ip, now) <==> count_of(calls, ip) >= l.capacity,
        tokens_of(limiter_run(l, calls), ip) == if count_of(calls, ip) <= l.capacity {
            l.capacity - count_of(calls, ip)
        } else {
            0
        },
        passes_of(l, calls, ip) == if count_of(calls, ip) <= l.capacity {
            count_of(calls, ip)
        } else {
            l.capacity as nat
        },
{
    assert(calls.push((ip, now)).drop_last() =~= calls);
    lemma_burst(l, calls, ip);
    lemma_found_bucket(l, calls, ip, now);
    lemma_latest_is_held(l, calls, ip);
    lemma_no_refill(
        bucket_of(
            swept(limiter_run(l, calls).shards[shard_of(ip)], now),
            ip,
            now,
            l.capacity,
        ),
        now,
        l.capacity,
    );
}

proof fn lemma_no_refill(b: Bucket, now: Moment, capacity: u32)
    ensures
        refilled(b, now, capacity, 0) == b,
{
    let nanos = clock::elapsed(b.last@, now@);
    assert(nanos * 0nat / 1_000_000_000 == 0) by (nonlinear_arith);
    assert(refill(nanos, 0) == 0);
}

proof fn lemma_burst(l: LimiterView, calls: Seq<(Seq<char>, Moment)>, ip: Seq<char>)
    requires
        l.shards.len() == SHARDS,
        !l.shards[shard_of(ip)].buckets.contains_key(ip),
        l.refill_per_sec == 0,
        keeps_asking(calls, ip),
    ensures
        latest_of(calls, ip) is None <==> count_of(calls, ip) == 0,
        tokens_of(limiter_run(l, calls), ip) == if count_of(calls, ip) <= l.capacity {
            l.capacity - count_of(calls, ip)
        } else {
            0
        },
        passes_of(l, calls, ip) == if count_of(calls, ip) <= l.capacity {
            count_of(calls, ip)
        } else {
            l.capacity as nat
        },
    decreases calls.len(),
{
    lemma_latest_is_held(l, calls, ip);
    if calls.len() > 0 {
        let front = calls.drop_last();
        let (from, now) = calls.last();
        lemma_burst(l, front, ip);
        lemma_latest_is_held(l, front, ip);
        let prior = limiter_run(l, front);
        if from == ip {
            assert(front.push((ip, now)) =~= calls);
            lemma_found_bucket(l, front, ip, now);
            let b = bucket_of(swept(prior.shards[shard_of(ip)], now), ip, now, l.capacity);
            lemma_no_refill(b, now, l.capacity);
            assert(b.tokens == tokens_of(prior, ip));
        } else {
            law_other_addresses_keep_their_buckets(prior, from, ip, now);
        }
    }
}

proof fn lemma_limit_potential(
    l: LimiterView,
    calls: Seq<(Seq<char>, Moment)>,
    ip: Seq<char>,
    start: Moment,
    end: Moment,
)
    requires
        l.shards.len() == SHARDS,
        !l.shards[shard_of(ip)].buckets.contains_key(ip),
        start@ <= end@,
        keeps_asking(calls, ip),
        forall|i: int| 0 <= i < calls.len() ==> start@ <= (#[trigger] calls[i]).1@ <= end@,
    ensures
        ({
            let held = limiter_run(l, calls).shards[shard_of(ip)].buckets;
            if held.contains_key(ip) {
                &&& start@ <= held[ip].last@ <= end@
                &&& held[ip].tokens + passes_of(l, calls, ip) <= l.capacity + refill(
                    (held[ip].last@ - start@) as nat,
                    l.refill_per_sec,
                )
            } else {
                passes_of(l, calls, ip) == 0
            }
        }),
    decreases calls.len(),
{
    if calls.len() > 0 {
        let front = calls.drop_last();
        assert forall|i: int| 0 <= i < front.len() implies start@ <= (#[trigger] front[i]).1@
            <= end@ by {
            assert(front[i] == calls[i]);
        }
        lemma_limit_potential(l, front, ip, start, end);
        lemma_latest_is_held(l, front, ip);
        let prior = limiter_run(l, front);
        let (from, now) = calls.last();
        assert(start@ <= calls[calls.len() - 1].1@ <= end@);
        let held = prior.shards[shard_of(ip)];
        if from == ip {
            assert(front.push((ip, now)) =~= calls);
            lemma_found_bucket(l, front, ip, now);
            let b = bucket_of(swept(held, now), ip, now, l.capacity);
            lemma_bucket_step(b, now, l.capacity, l.refill_per_sec);
            let next = bucket_after(b, now, l.capacity, l.refill_per_sec);
            lemma_refill_adds(
                (b.last@ - start@) as nat,
                (next.last@ - b.last@) as nat,
                l.refill_per_sec,
            );
        } else {
            law_other_addresses_keep_their_buckets(prior, from, ip, now);
        }
    }
}

/// The whole tokens that the time from `last` to `now` is worth, at so many a second.
pub open spec fn worth(last: Moment, now: Moment, per_sec: u32) -> int {
    if now@ > last@ {
        (now@ - last@) * per_sec / 1_000_000_000
    } else {
        0
    }
}

/// A refill gives all that the time since the last one is worth, up to the capacity; a
/// request takes one of these tokens, and is refused only where there is none. The time
/// of a refill is kept where there was anything to add, that of the request always.
pub proof fn law_refill_gives_all_that_is_due(
    b: Bucket,
    now: Moment,
    capacity: u32,
    per_sec: u32,
)
    requires
        b.tokens <= capacity,
    ensures
        ({
            let more = worth(b.last, now, per_sec);
            let full = if b.tokens + more < capacity {
                b.tokens + more
            } else {
                capacity as int
            };
            let after = bucket_after(b, now, capacity, per_sec);
            &&& more >= 0
            &&& is_over(b, now, capacity, per_sec) <==> full == 0
            &&& after.tokens == if full == 0 {
                0
            } else {
                full - 1
            }
            &&& after.last == if more == 0 {
                b.last
            } else {
                now
            }
            &&& after.seen == now
        }),
{
    let nanos = clock::elapsed(b.last@, now@);
    assert(0 * per_sec as nat / 1_000_000_000 == 0) by (nonlinear_arith);
    assert(nanos * per_sec as nat / 1_000_000_000 >= 0) by (nonlinear_arith)
        requires
            nanos >= 0,
            per_sec >= 0,
    ;
    assert(refill(nanos, per_sec) == worth(b.last, now, per_sec));
}

/// An address that pauses until the time is worth a full bucket passes with as many
/// requests at once as the capacity says, and with no more.
pub proof fn law_pause_gives_a_full_burst(
    b: Bucket,
    now: Moment,
    n: nat,
    capacity: u32,
    per_sec: u32,
)
    requires
        b.tokens <= capacity,
        worth(b.last, now, per_sec) >= capacity,
    ensures
        bucket_passes(b, Seq::new(n, |i: int| now), capacity, per_sec) == if n <= capacity {
            n
        } else {
            capacity as nat
        },
{
    lemma_burst_after_pause(b, now, n, capacity, per_sec);
}

proof fn lemma_burst_after_pause(b: Bucket, now: Moment, n: nat, capacity: u32, per_sec: u32)
    requires
        b.tokens <= capacity,
        worth(b.last, now, per_sec) >= capacity,
    ensures
        ({
            let at = Seq::new(n, |i: int| now);
            let after = bucket_run(b, at, capacity, per_sec);
            &&& bucket_passes(b, at, capacity, per_sec) == if n <= capacity {
                n
            } else {
                capacity as nat
            }
            &&& n > 0 ==> after.tokens == if n <= capacity {
                capacity - n
            } else {
                0
            }
            &&& n > 0 && capacity > 0 ==> after.last == now
            &&& n == 0 ==> after == b
            &&& capacity == 0 ==> after.tokens == 0
        }),
    decreases n,
{
    let at = Seq::new(n, |i: int| now);
    if n > 0 {
        let front = Seq::new((n - 1) as nat, |i: int| now);
        assert(at.drop_last() =~= front);
        lemma_burst_after_pause(b, now, (n - 1) as nat, capacity, per_sec);
        let before = bucket_run(b, front, capacity, per_sec);
        law_refill_gives_all_that_is_due(before, now, capacity, per_sec);
    }
}

/// A request that comes when the time since the last refill is worth a token is never
/// refused.
pub proof fn law_steady_requests_pass(b: Bucket, now: Moment, capacity: u32, per_sec: u32)
    requires
        b.tokens <= capacity,
        capacity > 0,
        worth(b.last, now, per_sec) >= 1,
    ensures
        !is_over(b, now, capacity, per_sec),
{
    law_refill_gives_all_that_is_due(b, now, capacity, per_sec);
}

/// A shard is swept once it holds 64 buckets and ten seconds have gone since the last
/// sweep, and a bucket is idle once five minutes have gone since the latest request.
pub proof fn law_sweep_times(s: ShardView, b: Bucket, now: Moment)
    ensures
        sweep_due(s, now) <==> s.buckets.len() >= 64 && now@ - s.last_cleanup@ >= 10_000_000_000,
        not_idle(b, now) <==> now@ - b.seen@ < 300_000_000_000,
{
}

/// A request of an address is judged by the bucket that it has, unless a sweep has taken
/// that away, and else by a full one; it leaves the bucket with one token less, and the
/// limits as they are.
pub proof fn law_request_takes_one_token(l: LimiterView, ip: Seq<char>, now: Moment)
    requires
        l.shards.len() == 16,
        within_capacity(l.shards[shard_of(ip)], l.capacity),
    ensures
        ({
            let held = l.shards[shard_of(ip)].buckets;
            let kept = held.contains_key(ip) && !(sweep_due(l.shards[shard_of(ip)], now)
                && !not_idle(held[ip], now));
            let full = if !kept {
                l.capacity as int
            } else if held[ip].tokens + worth(held[ip].last, now, l.refill_per_sec) < l.capacity {
                held[ip].tokens + worth(held[ip].last, now, l.refill_per_sec)
            } else {
                l.capacity as int
            };
            let after = limiter_after(l, ip, now);
            &&& over_limit(l, ip, now) <==> full == 0
            &&& tokens_of(after, ip) == if full == 0 {
                0
            } else {
                full - 1
            }
            &&& after.shards[shard_of(ip)].buckets.contains_key(ip)
            &&& after.shards[shard_of(ip)].buckets[ip].seen == now
            &&& after.shards[shard_of(ip)].buckets[ip].last == if kept && worth(
                held[ip].last,
                now,
                l.refill_per_sec,
            ) == 0 {
                held[ip].last
            } else {
                now
            }
            &&& after.capacity == l.capacity
            &&& after.refill_per_sec == l.refill_per_sec
            &&& after.shards.len() == 16
        }),
{
    let s = swept(l.shards[shard_of(ip)], now);
    let b = bucket_of(s, ip, now, l.capacity);
    law_refill_gives_all_that_is_due(b, now, l.capacity, l.refill_per_sec);
}

} // verus!
