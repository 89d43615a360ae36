//! Alerts and counts.
//!
//! The bus keeps the latest alerts, counts requests and blocks, and knows how many
//! requests came in the last second. An alert that repeats the one before it is not
//! kept again; the one that is kept counts the repetitions.

use crate::clock::{self, Clock, Moment};
use crate::text;
use std::collections::VecDeque;
use vstd::prelude::*;

verus! {

/// The window over which requests per second are counted, in nanoseconds.
pub const QPS_WINDOW: u64 = 1_000_000_000;

/// So many alerts are kept at most.
pub const MAX_ALERTS: usize = 500;

/// One rule that the request behind an alert hit.
#[derive(Debug, Clone)]
pub struct AlertHit {
    pub rule_id: u32,
    pub category: String,
    pub score: u32,
}

/// The contents of a hit.
#[verifier::ext_equal]
pub ghost struct AlertHitView {
    pub rule_id: u32,
    pub category: Seq<char>,
    pub score: u32,
}

impl View for AlertHit {
    type V = AlertHitView;

    open spec fn view(&self) -> AlertHitView {
        AlertHitView { rule_id: self.rule_id, category: self.category@, score: self.score }
    }
}

/// The contents of a list of hits.
pub open spec fn alert_hit_views(v: Seq<AlertHit>) -> Seq<AlertHitView> {
    v.map_values(|h: AlertHit| h@)
}

/// A request that was blocked, and why. `count` says how many times in a row it came.
#[derive(Debug, Clone)]
pub struct Alert {
    pub time: u64,
    pub ip: String,
    pub method: String,
    pub path: String,
    pub category: String,
    pub detail: String,
    pub rule_id: u32,
    pub score: u32,
    pub action: &'static str,
    pub count: u32,
    pub hits: Vec<AlertHit>,
}

/// The contents of an alert.
#[verifier::ext_equal]
pub ghost struct AlertView {
    pub time: u64,
    pub ip: Seq<char>,
    pub method: Seq<char>,
    pub path: Seq<char>,
    pub category: Seq<char>,
    pub detail: Seq<char>,
    pub rule_id: u32,
    pub score: u32,
    pub action: Seq<char>,
    pub count: u32,
    pub hits: Seq<AlertHitView>,
}

impl View for Alert {
    type V = AlertView;

    open spec fn view(&self) -> AlertView {
        AlertView {
            time: self.time,
            ip: self.ip@,
            method: self.method@,
            path: self.path@,
            category: self.category@,
            detail: self.detail@,
            rule_id: self.rule_id,
            score: self.score,
            action: self.action@,
            count: self.count,
            hits: alert_hit_views(self.hits@),
        }
    }
}

/// What makes two alerts the same: all that is told of the source and the attack,
/// without the time.
pub open spec fn key_of(a: AlertView) -> Seq<char> {
    (((a.ip.push('|') + a.method).push('|') + a.path).push('|') + a.category).push('|') + a.detail
}

/// An answer that the firewall gives itself.
#[derive(Debug, Clone)]
pub struct Reply {
    pub status: u16,
    pub content_type: String,
    pub body: String,
}

impl Alert {
    /// An alert on a block at a given UNIX second.
    pub fn at(
        time: u64,
        ip: &str,
        method: &str,
        path: &str,
        category: &str,
        detail: &str,
        rule_id: u32,
        score: u32,
    ) -> (a: Self)
        ensures
            a@ == (AlertView {
                time,
                ip: ip@,
                method: method@,
                path: path@,
                category: category@,
                detail: detail@,
                rule_id,
                score,
                action: "block"@,
                count: 1,
                hits: Seq::empty(),
            }),
    {
        let a = Alert {
            time,
            ip: ip.to_owned(),
            method: method.to_owned(),
            path: path.to_owned(),
            category: category.to_owned(),
            detail: detail.to_owned(),
            rule_id,
            score,
            action: "block",
            count: 1,
            hits: Vec::new(),
        };
        assert(alert_hit_views(a.hits@) =~= Seq::<AlertHitView>::empty());
        a
    }

    /// An alert on a block now.
    pub fn new(
        ip: &str,
        method: &str,
        path: &str,
        category: &str,
        detail: &str,
        rule_id: u32,
        score: u32,
    ) -> (a: Self)
        ensures
            a@ == (AlertView {
                time: a.time,
                ip: ip@,
                method: method@,
                path: path@,
                category: category@,
                detail: detail@,
                rule_id,
                score,
                action: "block"@,
                count: 1,
                hits: Seq::empty(),
            }),
    {
        Alert::at(clock::unix_now(), ip, method, path, category, detail, rule_id, score)
    }

    /// What makes two alerts the same.
    pub fn dedup_key(&self) -> (key: String)
        ensures
            key@ == key_of(self@),
    {
        let mut key = self.ip.clone();
        key.push('|');
        text::push_chars(&mut key, self.method.as_str());
        key.push('|');
        text::push_chars(&mut key, self.path.as_str());
        key.push('|');
        text::push_chars(&mut key, self.category.as_str());
        key.push('|');
        text::push_chars(&mut key, self.detail.as_str());
        key
    }

    /// A copy of the alert.
    pub fn copy(&self) -> (a: Self)
        ensures
            a@ == self@,
    {
        let mut hits: Vec<AlertHit> = Vec::new();
        let mut i: usize = 0;
        while i < self.hits.len()
            invariant
                i <= self.hits@.len(),
                hits@.len() == i,
                forall|k: int| 0 <= k < i ==> #[trigger] hits@[k]@ == self.hits@[k]@,
            decreases self.hits@.len() - i,
        {
            let h = &self.hits[i];
            hits.push(
                AlertHit { rule_id: h.rule_id, category: h.category.clone(), score: h.score },
            );
            i += 1;
        }
        assert(alert_hit_views(hits@) =~= alert_hit_views(self.hits@));
        Alert {
            time: self.time,
            ip: self.ip.clone(),
            method: self.method.clone(),
            path: self.path.clone(),
            category: self.category.clone(),
            detail: self.detail.clone(),
            rule_id: self.rule_id,
            score: self.score,
            action: self.action,
            count: self.count,
            hits,
        }
    }

    /// The answer to a request that is blocked. It says nothing of the reason.
    pub fn block_response(code: u16) -> (r: Reply)
        ensures
            r.status == code,
            r.content_type@ == "application/json"@,
            r.body@ == "{\"action\":\"block\"}"@,
    {
        Reply {
            status: code,
            content_type: "application/json".to_owned(),
            body: "{\"action\":\"block\"}".to_owned(),
        }
    }
}

/// A snapshot of the counts.
#[derive(Debug, Clone, Copy, PartialEq, Eq, Structural)]
pub struct Stats {
    pub total_requests: u64,
    pub blocked: u64,
    pub qps: u64,
}

/// The latest alerts, the moments of the latest requests, and the key of the latest
/// alert.
pub struct Inner {
    pub alerts: VecDeque<Alert>,
    pub request_times: VecDeque<Moment>,
    pub last_dedup_key: Option<String>,
}

/// Alerts and counts.
pub struct AlertBus {
    pub total_requests: u64,
    pub blocked: u64,
    pub inner: Inner,
    pub clock: Clock,
}

/// The contents of a list of alerts.
pub open spec fn alert_views(v: Seq<Alert>) -> Seq<AlertView> {
    v.map_values(|a: Alert| a@)
}

/// The contents of the bus.
#[verifier::ext_equal]
pub ghost struct BusView {
    pub total_requests: u64,
    pub blocked: u64,
    pub alerts: Seq<AlertView>,
    pub request_times: Seq<Moment>,
}

impl View for AlertBus {
    type V = BusView;

    open spec fn view(&self) -> BusView {
        BusView {
            total_requests: self.total_requests,
            blocked: self.blocked,
            alerts: alert_views(self.inner.alerts@),
            request_times: self.inner.request_times@,
        }
    }
}

/// The alert repeats the latest one.
pub open spec fn repeats(b: BusView, a: AlertView) -> bool {
    b.alerts.len() > 0 && key_of(b.alerts.last()) == key_of(a)
}

/// The alert with one more repetition. A count that is full stays as it is.
pub open spec fn repeated(a: AlertView) -> AlertView {
    AlertView {
        count: if a.count == u32::MAX {
            u32::MAX
        } else {
            (a.count + 1) as u32
        },
        ..a
    }
}

/// A counter that has wrapped round past its largest value starts again from nought.
pub open spec fn next_count(n: u64) -> u64 {
    if n == u64::MAX {
        0
    } else {
        (n + 1) as u64
    }
}

/// The kept alerts after one more.
pub open spec fn alerts_after(alerts: Seq<AlertView>, a: AlertView) -> Seq<AlertView> {
    if alerts.len() > 0 && key_of(alerts.last()) == key_of(a) {
        alerts.update(alerts.len() - 1, repeated(alerts.last()))
    } else if alerts.len() >= MAX_ALERTS {
        alerts.drop_first().push(a)
    } else {
        alerts.push(a)
    }
}

/// The bus after one more alert.
pub open spec fn published(b: BusView, a: AlertView) -> BusView {
    BusView { blocked: next_count(b.blocked), alerts: alerts_after(b.alerts, a), ..b }
}

/// The start of the window that ends now.
pub open spec fn cutoff(now: Moment) -> int {
    if now@ - QPS_WINDOW >= clock::MIN_MOMENT {
        now@ - QPS_WINDOW
    } else {
        now@
    }
}

/// The moments without those at the front that lie before the cut.
pub open spec fn pruned(times: Seq<Moment>, cut: int) -> Seq<Moment>
    decreases times.len(),
{
    if times.len() > 0 && times[0]@ < cut {
        pruned(times.drop_first(), cut)
    } else {
        times
    }
}

/// How many of the moments do not lie before the cut.
pub open spec fn count_from(times: Seq<Moment>, cut: int) -> nat
    decreases times.len(),
{
    if times.len() == 0 {
        0
    } else {
        count_from(times.drop_last(), cut) + if times.last()@ >= cut {
            1nat
        } else {
            0
        }
    }
}

/// The bus after one more request.
pub open spec fn counted(b: BusView, now: Moment) -> BusView {
    BusView {
        total_requests: next_count(b.total_requests),
        request_times: pruned(b.request_times.push(now), cutoff(now)),
        ..b
    }
}

/// The latest `n` alerts, the newest first.
pub open spec fn newest(alerts: Seq<AlertView>, n: nat) -> Seq<AlertView> {
    Seq::new(
        if n <= alerts.len() { n } else { alerts.len() },
        |i: int| alerts[alerts.len() - 1 - i],
    )
}

fn window_start(now: Moment) -> (cut: i128)
    ensures
        cut == cutoff(now),
{
    match now.checked_sub_nanos(QPS_WINDOW) {
        Some(m) => m.nanos(),
        None => now.nanos(),
    }
}

fn add_one(n: u64) -> (r: u64)
    ensures
        r == next_count(n),
{
    if n == u64::MAX {
        0
    } else {
        n + 1
    }
}

impl AlertBus {
    /// No more alerts are kept than may be, and the key of the latest is at hand.
    pub open spec fn wf(&self) -> bool {
        &&& self.inner.alerts@.len() <= MAX_ALERTS
        &&& match self.inner.last_dedup_key {
            Some(key) => self.inner.alerts@.len() > 0 && key@ == key_of(
                self.inner.alerts@.last()@,
            ),
            None => self.inner.alerts@.len() == 0,
        }
    }

    /// A bus on which nothing has happened.
    pub fn new() -> (b: Self)
        ensures
            b.wf(),
            b@ == (BusView {
                total_requests: 0,
                blocked: 0,
                alerts: Seq::empty(),
                request_times: Seq::empty(),
            }),
    {
        let b = AlertBus {
            total_requests: 0,
            blocked: 0,
            inner: Inner {
                alerts: VecDeque::new(),
                request_times: VecDeque::new(),
                last_dedup_key: None,
            },
            clock: Clock::start(),
        };
        assert(b@.alerts =~= Seq::<AlertView>::empty());
        b
    }

    /// Whether the alert repeats the latest one.
    fn is_repeat(&self, alert: &Alert) -> (r: bool)
        requires
            self.wf(),
        ensures
            r == repeats(self@, alert@),
    {
        let key = alert.dedup_key();
        assert(self@.alerts.len() == self.inner.alerts@.len());
        match &self.inner.last_dedup_key {
            Some(last) => {
                assert(self@.alerts.last() == self.inner.alerts@.last()@);
                text::same_text(last.as_str(), key.as_str())
            },
            None => false,
        }
    }

    /// Records a block. `true` means that the alert is new and is to be told on; one
    /// that repeats the latest is only counted there.
    pub fn publish(&mut self, alert: Alert) -> (fresh: bool)
        requires
            old(self).wf(),
        ensures
            final(self).wf(),
            final(self).clock == old(self).clock,
            final(self)@ == published(old(self)@, alert@),
            fresh == !repeats(old(self)@, alert@),
    {
        let ghost before = self@;
        self.blocked = add_one(self.blocked);
        if self.is_repeat(&alert) {
            let ghost kept = self.inner.alerts@;
            assert(before.alerts.last() == kept.last()@);
            match self.inner.alerts.pop_back() {
                Some(last) => {
                    let mut last = last;
                    last.count = last.count.saturating_add(1);
                    self.inner.alerts.push_back(last);
                    assert(self@.alerts =~= alerts_after(before.alerts, alert@));
                },
                None => {},
            }
            assert(self@ =~= published(before, alert@));
            return false;
        }
        let key = alert.dedup_key();
        self.inner.last_dedup_key = Some(key);
        let ghost kept = self.inner.alerts@;
        let ghost added = alert@;
        self.inner.alerts.push_back(alert);
        if self.inner.alerts.len() > MAX_ALERTS {
            let _ = self.inner.alerts.pop_front();
            assert(self@.alerts =~= before.alerts.drop_first().push(added));
        } else {
            assert(self@.alerts =~= before.alerts.push(added));
        }
        assert(self@ =~= published(before, added));
        true
    }

    /// Counts a request at a moment.
    pub fn count_request_at(&mut self, now: Moment)
        requires
            old(self).wf(),
        ensures
            final(self).wf(),
            final(self).clock == old(self).clock,
            final(self)@ == counted(old(self)@, now),
    {
        let ghost before = self@;
        self.total_requests = add_one(self.total_requests);
        let cut = window_start(now);
        self.inner.request_times.push_back(now);
        let ghost all = self.inner.request_times@;
        while self.inner.request_times.len() > 0 && self.inner.request_times[0].nanos() < cut
            invariant
                pruned(all, cut as int) == pruned(self.inner.request_times@, cut as int),
                self.total_requests == next_count(before.total_requests),
                self.blocked == before.blocked,
                self@.alerts == before.alerts,
                self.wf(),
                self.clock == old(self).clock,
            decreases self.inner.request_times@.len(),
        {
            let ghost so_far = self.inner.request_times@;
            let _ = self.inner.request_times.pop_front();
            assert(self.inner.request_times@ =~= so_far.drop_first());
        }
        assert(self@ =~= counted(before, now));
    }

    /// Counts a request.
    pub fn count_request(&mut self)
        requires
            old(self).wf(),
        ensures
            final(self).wf(),
            final(self).clock == old(self).clock,
            exists|now: Moment|
                clock::is_reading(now) && final(self)@ == #[trigger] counted(old(self)@, now),
    {
        let now = self.clock.now();
        self.count_request_at(now);
    }

    /// The counts at a moment. Requests per second are those of the last second.
    pub fn stats_at(&self, now: Moment) -> (s: Stats)
        ensures
            s.total_requests == self@.total_requests,
            s.blocked == self@.blocked,
            s.qps == count_from(self@.request_times, cutoff(now)),
    {
        let cut = window_start(now);
        let ghost all = self.inner.request_times@;
        let mut qps: usize = 0;
        let mut i: usize = 0;
        assert(all.take(0) =~= Seq::<Moment>::empty());
        let n = self.inner.request_times.len();
        while i < n
            invariant
                i <= n,
                n == all.len(),
                all == self.inner.request_times@,
                qps <= i,
                qps == count_from(all.take(i as int), cut as int),
            decreases n - i,
        {
            assert(all.take(i as int + 1).drop_last() =~= all.take(i as int));
            if self.inner.request_times[i].nanos() >= cut {
                qps += 1;
            }
            i += 1;
        }
        assert(all.take(all.len() as int) =~= all);
        Stats { total_requests: self.total_requests, blocked: self.blocked, qps: qps as u64 }
    }

    /// The counts now.
    pub fn stats(&self) -> (s: Stats)
        ensures
            s.total_requests == self@.total_requests,
            s.blocked == self@.blocked,
            exists|now: Moment|
                clock::is_reading(now) && s.qps == count_from(
                    self@.request_times,
                    #[trigger] cutoff(now),
                ),
    {
        let now = self.clock.now();
        self.stats_at(now)
    }

    /// The latest `n` alerts, the newest first.
    pub fn recent_alerts(&self, n: usize) -> (out: Vec<Alert>)
        ensures
            alert_views(out@) == newest(self@.alerts, n as nat),
    {
        let len = self.inner.alerts.len();
        let wanted: usize = if n <= len {
            n
        } else {
            len
        };
        let ghost all = self@.alerts;
        let mut out: Vec<Alert> = Vec::new();
        while out.len() < wanted
            invariant
                wanted <= len,
                len == self.inner.alerts@.len(),
                all == self@.alerts,
                out@.len() <= wanted,
                forall|k: int| 0 <= k < out@.len() ==> #[trigger] out@[k]@ == all[len - 1 - k],
            decreases wanted - out@.len(),
        {
            let i = len - 1 - out.len();
            assert(all[i as int] == self.inner.alerts@[i as int]@);
            out.push(self.inner.alerts[i].copy());
        }
        assert(alert_views(out@) =~= newest(all, n as nat));
        out
    }
}

impl Default for AlertBus {
    /// A bus on which nothing has happened.
    fn default() -> (b: Self)
        ensures
            b.wf(),
            b@ == (BusView {
                total_requests: 0,
                blocked: 0,
                alerts: Seq::empty(),
                request_times: Seq::empty(),
            }),
    {
        AlertBus::new()
    }
}

/// The sum of the counts of some alerts.
pub open spec fn count_sum(alerts: Seq<AlertView>) -> nat
    decreases alerts.len(),
{
    if alerts.len() == 0 {
        0
    } else {
        count_sum(alerts.drop_last()) + alerts.last().count as nat
    }
}

/// No alert goes uncounted: while none has to make room, the counts of the kept alerts
/// grow by one with every alert.
pub proof fn law_every_alert_is_counted(b: BusView, a: AlertView)
    requires
        a.count == 1,
        repeats(b, a) ==> b.alerts.last().count < u32::MAX,
        repeats(b, a) || b.alerts.len() < MAX_ALERTS,
    ensures
        count_sum(published(b, a).alerts) == count_sum(b.alerts) + 1,
{
    let after = published(b, a).alerts;
    if repeats(b, a) {
        assert(after.drop_last() =~= b.alerts.drop_last());
    } else {
        assert(after.drop_last() =~= b.alerts);
    }
}

/// Every alert counts as a block, kept or not.
pub proof fn law_every_alert_is_a_block(b: BusView, a: AlertView)
    requires
        b.blocked < u64::MAX,
    ensures
        published(b, a).blocked == b.blocked + 1,
        published(b, a).total_requests == b.total_requests,
{
}

/// No more alerts are kept than may be.
pub proof fn law_history_is_bounded(b: BusView, a: AlertView)
    requires
        b.alerts.len() <= MAX_ALERTS,
    ensures
        published(b, a).alerts.len() <= MAX_ALERTS,
{
}

/// The same alert twice in a row is kept once, with a count of two.
pub proof fn law_repetition_is_kept_once(b: BusView, first: AlertView, second: AlertView)
    requires
        !repeats(b, first),
        key_of(first) == key_of(second),
        first.count == 1,
    ensures
        ({
            let twice = published(published(b, first), second);
            &&& repeats(published(b, first), second)
            &&& twice.alerts.len() == published(b, first).alerts.len()
            &&& twice.alerts.last() == (AlertView { count: 2, ..first })
        }),
{
}

/// An alert that comes again after another one is kept again.
pub proof fn law_only_neighbours_are_repetitions(b: BusView, a: AlertView, other: AlertView)
    requires
        key_of(a) != key_of(other),
    ensures
        !repeats(published(published(b, a), other), a),
{
}

/// The newest alert comes first.
pub proof fn law_newest_comes_first(b: BusView, a: AlertView, n: nat)
    requires
        !repeats(b, a),
        n > 0,
    ensures
        newest(published(b, a).alerts, n)[0] == a,
{
}

proof fn lemma_count_skips_front(times: Seq<Moment>, cut: int)
    requires
        times.len() > 0,
        times[0]@ < cut,
    ensures
        count_from(times.drop_first(), cut) == count_from(times, cut),
    decreases times.len(),
{
    if times.len() > 1 {
        assert(times.drop_last()[0] == times[0]);
        lemma_count_skips_front(times.drop_last(), cut);
        assert(times.drop_last().drop_first() =~= times.drop_first().drop_last());
    } else {
        assert(times.drop_first() =~= Seq::<Moment>::empty());
        assert(times.drop_last() =~= Seq::<Moment>::empty());
    }
}

/// What is pruned would not have been counted, then or later: pruning is never seen.
pub proof fn law_pruning_is_never_seen(times: Seq<Moment>, cut: int, later_cut: int)
    requires
        cut <= later_cut,
    ensures
        count_from(pruned(times, cut), later_cut) == count_from(times, later_cut),
    decreases times.len(),
{
    if times.len() > 0 && times[0]@ < cut {
        lemma_count_skips_front(times, later_cut);
        law_pruning_is_never_seen(times.drop_first(), cut, later_cut);
    }
}

/// Requests that all lie before the window do not count.
pub proof fn law_stale_requests_do_not_count(times: Seq<Moment>, cut: int)
    requires
        forall|i: int| 0 <= i < times.len() ==> (#[trigger] times[i])@ < cut,
    ensures
        count_from(times, cut) == 0,
    decreases times.len(),
{
    if times.len() > 0 {
        let front = times.drop_last();
        assert forall|i: int| 0 <= i < front.len() implies (#[trigger] front[i])@ < cut by {
            assert(front[i] == times[i]);
        }
        law_stale_requests_do_not_count(front, cut);
        assert(times[times.len() - 1]@ < cut);
    }
}

/// A request counts at once.
pub proof fn law_request_counts_at_once(b: BusView, now: Moment)
    ensures
        count_from(counted(b, now).request_times, cutoff(now)) == count_from(
            b.request_times,
            cutoff(now),
        ) + 1,
{
    let all = b.request_times.push(now);
    law_pruning_is_never_seen(all, cutoff(now), cutoff(now));
    assert(all.drop_last() =~= b.request_times);
}

/// What happens on the bus: a request at a moment, or an alert.
pub ghost enum Event {
    Request(Moment),
    Alert(AlertView),
}

/// The bus after some events.
pub open spec fn after_events(b: BusView, events: Seq<Event>) -> BusView
    decreases events.len(),
{
    if events.len() == 0 {
        b
    } else {
        let before = after_events(b, events.drop_last());
        match events.last() {
            Event::Request(now) => counted(before, now),
            Event::Alert(a) => published(before, a),
        }
    }
}

/// The moments of the requests among some events.
pub open spec fn requests_in(events: Seq<Event>) -> Seq<Moment>
    decreases events.len(),
{
    if events.len() == 0 {
        Seq::empty()
    } else {
        let before = requests_in(events.drop_last());
        match events.last() {
            Event::Request(now) => before.push(now),
            Event::Alert(_) => before,
        }
    }
}

/// The alerts among some events.
pub open spec fn alerts_in(events: Seq<Event>) -> Seq<AlertView>
    decreases events.len(),
{
    if events.len() == 0 {
        Seq::empty()
    } else {
        let before = alerts_in(events.drop_last());
        match events.last() {
            Event::Request(_) => before,
            Event::Alert(a) => before.push(a),
        }
    }
}

/// The requests among the events came after the clock was started, and not after `now`.
pub open spec fn requests_until(events: Seq<Event>, now: Moment) -> bool {
    forall|i: int|
        0 <= i < events.len() ==> match #[trigger] events[i] {
            Event::Request(t) => 0 <= t@ <= now@,
            Event::Alert(_) => true,
        }
}

/// After any requests and alerts the bus has counted each of them once, and the requests
/// per second are those of all its requests that lie in the last second, also those
/// that it no longer holds.
pub proof fn law_counts_are_those_of_the_events(b: BusView, events: Seq<Event>, now: Moment)
    requires
        requests_until(events, now),
        b.total_requests + requests_in(events).len() <= u64::MAX,
        b.blocked + alerts_in(events).len() <= u64::MAX,
    ensures
        after_events(b, events).total_requests == b.total_requests + requests_in(events).len(),
        after_events(b, events).blocked == b.blocked + alerts_in(events).len(),
        count_from(after_events(b, events).request_times, cutoff(now)) == count_from(
            b.request_times + requests_in(events),
            cutoff(now),
        ),
    decreases events.len(),
{
    if events.len() == 0 {
        assert(b.request_times + requests_in(events) =~= b.request_times);
    } else {
        let front = events.drop_last();
        let before = after_events(b, front);
        assert forall|i: int| 0 <= i < front.len() implies match #[trigger] front[i] {
            Event::Request(t) => 0 <= t@ <= now@,
            Event::Alert(_) => true,
        } by {
            assert(front[i] == events[i]);
        }
        law_counts_are_those_of_the_events(b, front, now);
        assert(events[events.len() - 1] == events.last());
        match events.last() {
            Event::Request(t) => {
                let held = before.request_times.push(t);
                let all = (b.request_times + requests_in(front)).push(t);
                law_pruning_is_never_seen(held, cutoff(t), cutoff(now));
                assert(held.drop_last() =~= before.request_times);
                assert(all.drop_last() =~= b.request_times + requests_in(front));
                assert(b.request_times + requests_in(events) =~= all);
            },
            Event::Alert(_) => {},
        }
    }
}

/// The alerts with those that repeat the one before them counted there.
pub open spec fn collapsed(alerts: Seq<AlertView>) -> Seq<AlertView>
    decreases alerts.len(),
{
    if alerts.len() == 0 {
        alerts
    } else {
        let before = collapsed(alerts.drop_last());
        if before.len() > 0 && key_of(before.last()) == key_of(alerts.last()) {
            before.update(before.len() - 1, repeated(before.last()))
        } else {
            before.push(alerts.last())
        }
    }
}

/// The latest of some alerts, as many as are kept.
pub open spec fn latest(alerts: Seq<AlertView>) -> Seq<AlertView> {
    if alerts.len() <= MAX_ALERTS {
        alerts
    } else {
        alerts.skip(alerts.len() - MAX_ALERTS)
    }
}

/// After any requests and alerts a new bus keeps the latest of the alerts, those that
/// repeat the one before them counted there.
pub proof fn law_kept_alerts_are_the_latest(b: BusView, events: Seq<Event>)
    requires
        b.alerts.len() == 0,
    ensures
        after_events(b, events).alerts == latest(collapsed(alerts_in(events))),
    decreases events.len(),
{
    if events.len() == 0 {
        assert(b.alerts =~= latest(collapsed(alerts_in(events))));
    } else {
        let front = events.drop_last();
        law_kept_alerts_are_the_latest(b, front);
        if let Event::Alert(a) = events.last() {
            let all = alerts_in(events);
            assert(all.drop_last() =~= alerts_in(front));
            let before = collapsed(alerts_in(front));
            let kept = latest(before);
            if before.len() > 0 {
                assert(kept.last() == before.last());
            }
            assert(alerts_after(kept, a) =~= latest(collapsed(all)));
        }
    }
}

/// However often they repeat each other, the counts of some alerts add up to their
/// number.
pub proof fn law_no_repetition_is_lost(alerts: Seq<AlertView>)
    requires
        alerts.len() <= u32::MAX,
        forall|i: int| 0 <= i < alerts.len() ==> (#[trigger] alerts[i]).count == 1,
    ensures
        count_sum(collapsed(alerts)) == alerts.len(),
    decreases alerts.len(),
{
    if alerts.len() > 0 {
        let front = alerts.drop_last();
        assert forall|i: int| 0 <= i < front.len() implies (#[trigger] front[i]).count == 1 by {
            assert(front[i] == alerts[i]);
        }
        law_no_repetition_is_lost(front);
        let before = collapsed(front);
        let after = collapsed(alerts);
        assert(alerts[alerts.len() - 1].count == 1);
        if before.len() > 0 && key_of(before.last()) == key_of(alerts.last()) {
            assert(after.drop_last() =~= before.drop_last());
        } else {
            assert(after.drop_last() =~= before);
        }
    }
}

/// Alerts are the same where address, method, path, category and detail, with bars between
/// them, are; neither time nor rule nor score makes a difference, and two that differ in
/// one of these five alone are never the same.
pub proof fn law_same_alerts(a: AlertView, b: AlertView)
    ensures
        key_of(a) == text::rejoined(seq![a.ip, a.method, a.path, a.category, a.detail], '|'),
        key_of(
            AlertView {
                time: b.time,
                rule_id: b.rule_id,
                score: b.score,
                action: b.action,
                count: b.count,
                hits: b.hits,
                ..a
            },
        ) == key_of(a),
        a.ip != b.ip ==> key_of(AlertView { ip: b.ip, ..a }) != key_of(a),
        a.method != b.method ==> key_of(AlertView { method: b.method, ..a }) != key_of(a),
        a.path != b.path ==> key_of(AlertView { path: b.path, ..a }) != key_of(a),
        a.category != b.category ==> key_of(AlertView { category: b.category, ..a }) != key_of(a),
        a.detail != b.detail ==> key_of(AlertView { detail: b.detail, ..a }) != key_of(a),
{
    let p = seq![a.ip, a.method, a.path, a.category, a.detail];
    let p4 = seq![a.ip, a.method, a.path, a.category];
    let p3 = seq![a.ip, a.method, a.path];
    let p2 = seq![a.ip, a.method];
    assert(p.drop_last() =~= p4);
    assert(p4.drop_last() =~= p3);
    assert(p3.drop_last() =~= p2);
    assert(p2.drop_last() =~= seq![a.ip]);
    assert(text::rejoined(seq![a.ip], '|') == a.ip);
    assert(text::rejoined(p2, '|') == a.ip.push('|') + a.method);
    assert(text::rejoined(p3, '|') == (a.ip.push('|') + a.method).push('|') + a.path);
    assert(text::rejoined(p4, '|') == text::rejoined(p3, '|').push('|') + a.category);
    assert(text::rejoined(p, '|') == text::rejoined(p4, '|').push('|') + a.detail);
    let none = Seq::<char>::empty();
    let bar = seq!['|'];
    let (s1, s2, s3, s4) = (
        bar + a.method + bar + a.path + bar + a.category + bar + a.detail,
        bar + a.path + bar + a.category + bar + a.detail,
        bar + a.category + bar + a.detail,
        bar + a.detail,
    );
    let q2 = a.ip + bar;
    let q3 = a.ip + bar + a.method + bar;
    let q4 = q3 + a.path + bar;
    let q5 = q4 + a.category + bar;
    lemma_key_around(AlertView { ip: b.ip, ..a });
    lemma_key_around(AlertView { method: b.method, ..a });
    lemma_key_around(AlertView { path: b.path, ..a });
    lemma_key_around(AlertView { category: b.category, ..a });
    lemma_key_around(AlertView { detail: b.detail, ..a });
    lemma_key_around(a);
    lemma_middle_counts(none, a.ip, b.ip, s1);
    lemma_middle_counts(q2, a.method, b.method, s2);
    lemma_middle_counts(q3, a.path, b.path, s3);
    lemma_middle_counts(q4, a.category, b.category, s4);
    lemma_middle_counts(q5, a.detail, b.detail, none);
}

proof fn lemma_key_around(a: AlertView)
    ensures
        ({
            let none = Seq::<char>::empty();
            let bar = seq!['|'];
            &&& key_of(a) == none + a.ip + (bar + a.method + bar + a.path + bar + a.category + bar
                + a.detail)
            &&& key_of(a) == (a.ip + bar) + a.method + (bar + a.path + bar + a.category + bar
                + a.detail)
            &&& key_of(a) == (a.ip + bar + a.method + bar) + a.path + (bar + a.category + bar
                + a.detail)
            &&& key_of(a) == (a.ip + bar + a.method + bar + a.path + bar) + a.category + (bar
                + a.detail)
            &&& key_of(a) == (a.ip + bar + a.method + bar + a.path + bar + a.category + bar)
                + a.detail + none
        }),
{
    let none = Seq::<char>::empty();
    let bar = seq!['|'];
    assert(key_of(a) =~= none + a.ip + (bar + a.method + bar + a.path + bar + a.category + bar
        + a.detail));
    assert(key_of(a) =~= (a.ip + bar) + a.method + (bar + a.path + bar + a.category + bar
        + a.detail));
    assert(key_of(a) =~= (a.ip + bar + a.method + bar) + a.path + (bar + a.category + bar
        + a.detail));
    assert(key_of(a) =~= (a.ip + bar + a.method + bar + a.path + bar) + a.category + (bar
        + a.detail));
    assert(key_of(a) =~= (a.ip + bar + a.method + bar + a.path + bar + a.category + bar) + a.detail
        + none);
}

proof fn lemma_middle_counts(front: Seq<char>, x: Seq<char>, y: Seq<char>, behind: Seq<char>)
    ensures
        x != y ==> front + x + behind != front + y + behind,
{
    let (s, t) = (front + x + behind, front + y + behind);
    if s == t {
        assert(s.len() == t.len());
        assert(x.len() == y.len());
        assert forall|i: int| 0 <= i < x.len() implies x[i] == y[i] by {
            assert(s[front.len() + i] == t[front.len() + i]);
        }
        assert(x =~= y);
    }
}

/// A new alert is kept behind the others, of which the oldest goes where there are 500; one
/// that repeats the latest changes nothing but its count, by one.
pub proof fn law_alerts_are_kept(b: BusView, a: AlertView)
    ensures
        repeats(b, a) <==> b.alerts.len() > 0 && key_of(b.alerts.last()) == key_of(a),
        !repeats(b, a) && b.alerts.len() < 500 ==> published(b, a).alerts == b.alerts.push(a),
        !repeats(b, a) && b.alerts.len() == 500 ==> published(b, a).alerts == b.alerts.skip(1).push(
            a,
        ),
        repeats(b, a) && b.alerts.last().count < 0xffff_ffff ==> published(b, a).alerts
            == b.alerts.drop_last().push(
            AlertView { count: (b.alerts.last().count + 1) as u32, ..b.alerts.last() },
        ),
        published(b, a).request_times == b.request_times,
        published(b, a).total_requests == b.total_requests,
{
    if !repeats(b, a) && b.alerts.len() == 500 {
        assert(b.alerts.drop_first() =~= b.alerts.skip(1));
    }
    if repeats(b, a) && b.alerts.last().count < 0xffff_ffff {
        assert(published(b, a).alerts =~= b.alerts.drop_last().push(
            AlertView { count: (b.alerts.last().count + 1) as u32, ..b.alerts.last() },
        ));
    }
}

/// A request adds one to the total, and the requests per second are the requests of the
/// last second, this one too.
pub proof fn law_requests_per_second(b: BusView, at: Moment, now: Moment)
    requires
        0 <= at@ <= now@,
    ensures
        b.total_requests < 0xffff_ffff_ffff_ffff ==> counted(b, at).total_requests
            == b.total_requests + 1,
        counted(b, at).blocked == b.blocked,
        counted(b, at).alerts == b.alerts,
        count_from(b.request_times, cutoff(now)) == b.request_times.filter(
            |t: Moment| now@ - t@ <= 1_000_000_000,
        ).len(),
        count_from(counted(b, at).request_times, cutoff(now)) == b.request_times.push(at).filter(
            |t: Moment| now@ - t@ <= 1_000_000_000,
        ).len(),
{
    lemma_count_is_filtered(b.request_times, now);
    lemma_count_is_filtered(b.request_times.push(at), now);
    law_pruning_is_never_seen(b.request_times.push(at), cutoff(at), cutoff(now));
}

proof fn lemma_count_is_filtered(times: Seq<Moment>, now: Moment)
    requires
        0 <= now@,
    ensures
        count_from(times, cutoff(now)) == times.filter(
            |t: Moment| now@ - t@ <= 1_000_000_000,
        ).len(),
    decreases times.len(),
{
    reveal(Seq::filter);
    if times.len() > 0 {
        lemma_count_is_filtered(times.drop_last(), now);
    }
}

/// The latest alerts come newest first, as many as are asked for and there are.
pub proof fn law_latest_alerts(alerts: Seq<AlertView>, n: nat)
    ensures
        newest(alerts, n).len() == if n < alerts.len() {
            n
        } else {
            alerts.len()
        },
        forall|i: int|
            0 <= i < newest(alerts, n).len() ==> #[trigger] newest(alerts, n)[i]
                == alerts[alerts.len() - 1 - i],
{
}

} // verus!
