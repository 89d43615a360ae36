//! What becomes of a request, from its arrival to its answer.

use crate::addr;
use crate::block::{self, BlockList};
use crate::bus::{self, Alert, AlertBus, AlertHit, Reply};
use crate::clock::{self, Moment};
use crate::cli;
use crate::config::RuleField;
use crate::engine::{self, Engine, Hit};
use crate::forward::{self, ForwardPlan};
use crate::headers;
use crate::limiter::{self, RateLimiter};
use crate::text;
use hyper::header::HeaderValue;
use hyper::HeaderMap;
use vstd::prelude::*;

verus! {

/// A request that is not passed on: the alert on it, and the status of the answer.
pub struct Refusal {
    pub status: u16,
    pub alert: Alert,
}

/// The request that an alert speaks of.
#[verifier::ext_equal]
pub ghost struct Subject {
    pub time: u64,
    pub ip: Seq<char>,
    pub method: Seq<char>,
    pub uri: Seq<char>,
}

/// The alert on a request.
pub open spec fn alert_on(
    s: Subject,
    category: Seq<char>,
    detail: Seq<char>,
    rule_id: u32,
    score: u32,
    hits: Seq<bus::AlertHitView>,
) -> bus::AlertView {
    bus::AlertView {
        time: s.time,
        ip: s.ip,
        method: s.method,
        path: s.uri,
        category,
        detail,
        rule_id,
        score,
        action: "block"@,
        count: 1,
        hits,
    }
}

/// The refusal has this status, and its alert this category and detail, without a rule.
pub open spec fn refuses(
    r: Option<Refusal>,
    s: Subject,
    status: u16,
    category: Seq<char>,
    detail: Seq<char>,
) -> bool {
    &&& r matches Some(f)
    &&& f.status == status
    &&& f.alert@ == alert_on(s, category, detail, 0, 0, Seq::empty())
}

/// The list after a question about an address.
pub open spec fn list_after(v: block::BlockView, ip: Seq<char>, now: Moment) -> block::BlockView {
    match addr::normalized(ip) {
        Some(key) => block::asked(v, key, now),
        None => v,
    }
}

/// Whether an address is on the list.
pub open spec fn is_listed(v: block::BlockView, ip: Seq<char>, now: Moment) -> bool {
    match addr::normalized(ip) {
        Some(key) => block::blocked(v, key, now),
        None => false,
    }
}

/// The readings of the three clocks.
#[derive(Clone, Copy, Debug)]
pub struct Readings {
    pub bus: Moment,
    pub list: Moment,
    pub limiter: Moment,
}

/// The screening of a request, for some readings of the clocks.
pub open spec fn screened(
    before: (bus::BusView, block::BlockView, limiter::LimiterView),
    after: (bus::BusView, block::BlockView, limiter::LimiterView),
    framed: bool,
    s: Subject,
    at: Readings,
    r: Option<Refusal>,
) -> bool {
    &&& after.0 == bus::counted(before.0, at.bus)
    &&& after.1 == if framed {
        list_after(before.1, s.ip, at.list)
    } else {
        before.1
    }
    &&& after.2 == if framed && !is_listed(before.1, s.ip, at.list) {
        limiter::limiter_after(before.2, s.ip, at.limiter)
    } else {
        before.2
    }
    &&& if !framed {
        refuses(r, s, 400, "smuggling"@, "Content-Length/Transfer-Encoding 边界冲突"@)
    } else if is_listed(before.1, s.ip, at.list) {
        refuses(r, s, 403, "block"@, "IP 已封禁"@)
    } else if limiter::over_limit(before.2, s.ip, at.limiter) {
        refuses(r, s, 429, "cc"@, "IP 频率超限"@)
    } else {
        r is None
    }
}

/// Screens a request before its rules are looked at. Every request is counted. One
/// whose end is in doubt is refused, then one from a blocked address, then one that is
/// over the limit; a request that is refused takes no token.
pub fn screen_at(
    alerts: &mut AlertBus,
    list: &mut BlockList,
    limit: &mut RateLimiter,
    framed: bool,
    ip: &str,
    method: &str,
    uri: &str,
    at: Readings,
    time: u64,
) -> (r: Option<Refusal>)
    requires
        old(alerts).wf(),
        old(list).wf(),
        old(limit).wf(),
    ensures
        final(alerts).wf(),
        final(list).wf(),
        final(limit).wf(),
        final(alerts).clock == old(alerts).clock,
        final(list).clock == old(list).clock,
        final(limit).clock == old(limit).clock,
        screened(
            (old(alerts)@, old(list)@, old(limit)@),
            (final(alerts)@, final(list)@, final(limit)@),
            framed,
            Subject { time, ip: ip@, method: method@, uri: uri@ },
            at,
            r,
        ),
{
    alerts.count_request_at(at.bus);
    if !framed {
        let alert = Alert::at(
            time,
            ip,
            method,
            uri,
            "smuggling",
            "Content-Length/Transfer-Encoding 边界冲突",
            0,
            0,
        );
        return Some(Refusal { status: 400, alert });
    }
    if list.is_blocked_at(ip, at.list) {
        let alert = Alert::at(time, ip, method, uri, "block", "IP 已封禁", 0, 0);
        return Some(Refusal { status: 403, alert });
    }
    if limit.check_at(ip, at.limiter) {
        let alert = Alert::at(time, ip, method, uri, "cc", "IP 频率超限", 0, 0);
        return Some(Refusal { status: 429, alert });
    }
    None
}

/// Whether the readings are those of clocks that have been started.
pub open spec fn in_order(at: Readings) -> bool {
    clock::is_reading(at.bus) && clock::is_reading(at.list) && clock::is_reading(at.limiter)
}

/// Screens a request that has arrived, by the clocks. It needs nothing of the rules.
pub fn screen(
    alerts: &mut AlertBus,
    list: &mut BlockList,
    limit: &mut RateLimiter,
    headers: &HeaderMap<HeaderValue>,
    parts: &RequestParts,
    ip: &str,
) -> (r: Option<Refusal>)
    requires
        old(alerts).wf(),
        old(list).wf(),
        old(limit).wf(),
    ensures
        final(alerts).wf(),
        final(list).wf(),
        final(limit).wf(),
        final(alerts).clock == old(alerts).clock,
        final(list).clock == old(list).clock,
        final(limit).clock == old(limit).clock,
        exists|at: Readings, time: u64|
            in_order(at) && #[trigger] screened(
                (old(alerts)@, old(list)@, old(limit)@),
                (final(alerts)@, final(list)@, final(limit)@),
                headers::framed(headers::header_fields(*headers)),
                parts.subject(ip@, time),
                at,
                r,
            ),
{
    let framed = headers::valid_request_boundaries(headers);
    let at = Readings {
        bus: alerts.clock.now(),
        list: list.clock.now(),
        limiter: limit.clock.now(),
    };
    let time = clock::unix_now();
    let r = screen_at(
        alerts,
        list,
        limit,
        framed,
        ip,
        parts.method.as_str(),
        parts.uri.as_str(),
        at,
        time,
    );
    proof {
        assert(in_order(at));
        assert(screened(
            (old(alerts)@, old(list)@, old(limit)@),
            (final(alerts)@, final(list)@, final(limit)@),
            framed,
            parts.subject(ip@, time),
            at,
            r,
        ));
    }
    r
}

/// The hits as an alert tells them.
pub open spec fn told(hits: Seq<engine::HitView>) -> Seq<bus::AlertHitView> {
    hits.map_values(
        |h: engine::HitView|
            bus::AlertHitView { rule_id: h.rule_id, category: h.category, score: h.score },
    )
}

/// The alert on a request that hit these rules: the first of them gives its name to it.
pub open spec fn rule_alert(s: Subject, hits: Seq<engine::HitView>, score: u32) -> bus::AlertView {
    alert_on(
        s,
        hits[0].category,
        "rule #"@ + text::digits(hits[0].rule_id as nat, 10),
        hits[0].rule_id,
        score,
        told(hits),
    )
}

/// The refusal of a request that hit these rules.
pub fn rule_refusal(
    ip: &str,
    method: &str,
    uri: &str,
    hits: &Vec<Hit>,
    score: u32,
    time: u64,
) -> (f: Refusal)
    requires
        hits@.len() > 0,
    ensures
        f.status == 403,
        f.alert@ == rule_alert(
            Subject { time, ip: ip@, method: method@, uri: uri@ },
            engine::hit_views(hits@),
            score,
        ),
{
    let first = &hits[0];
    let mut detail = "rule #".to_owned();
    text::push_digits(&mut detail, first.rule_id as u64, 10);
    let mut alert = Alert::at(
        time,
        ip,
        method,
        uri,
        first.category.as_str(),
        detail.as_str(),
        first.rule_id,
        score,
    );
    let mut copies: Vec<AlertHit> = Vec::new();
    let mut i: usize = 0;
    while i < hits.len()
        invariant
            i <= hits@.len(),
            copies@.len() == i,
            forall|k: int|
                0 <= k < i ==> #[trigger] copies@[k]@ == (bus::AlertHitView {
                    rule_id: hits@[k].rule_id,
                    category: hits@[k].category@,
                    score: hits@[k].score,
                }),
        decreases hits@.len() - i,
    {
        let h = &hits[i];
        copies.push(
            AlertHit { rule_id: h.rule_id, category: h.category.clone(), score: h.score },
        );
        i += 1;
    }
    assert(bus::alert_hit_views(copies@) =~= told(engine::hit_views(hits@)));
    alert.hits = copies;
    let ghost s = Subject { time, ip: ip@, method: method@, uri: uri@ };
    assert(engine::hit_views(hits@)[0] == hits@[0]@);
    assert(alert@ =~= rule_alert(s, engine::hit_views(hits@), score));
    Refusal { status: 403, alert }
}

/// What the rules make of a request: it is refused where its dangerous bytes and the
/// rules that it hits reach the threshold.
pub open spec fn judged(
    e: engine::EngineView,
    req: engine::RequestView,
    s: Subject,
    r: Option<Refusal>,
) -> bool {
    &&& engine::hits_are_exact(e.rules, req)
    &&& match (r, engine::verdict_of(e, req)) {
        (None, engine::VerdictView::Allow) => true,
        (Some(f), engine::VerdictView::Block { hits, score }) => {
            &&& f.status == 403
            &&& f.alert@ == rule_alert(s, hits, score)
        },
        _ => false,
    }
}

/// Looks at a request by the rules, at a given UNIX second. The start of the body is
/// given as text; it may be left out where no rule looks at bodies.
pub fn judge_at(
    engine: &Engine,
    headers: &HeaderMap<HeaderValue>,
    ip: &str,
    method: &str,
    uri: &str,
    path_and_query: Option<&str>,
    query: Option<&str>,
    body: &str,
    time: u64,
) -> (r: Option<Refusal>)
    requires
        engine.wf(),
    ensures
        judged(
            engine@,
            engine::normalized_request(
                method@,
                engine::opt_view(path_and_query),
                engine::opt_view(query),
                headers::header_fields(*headers),
                body@,
            ),
            Subject { time, ip: ip@, method: method@, uri: uri@ },
            r,
        ),
{
    match engine::check_rules(engine, method, path_and_query, query, headers, body) {
        None => None,
        Some((hits, score)) => {
            assert(engine::hit_views(hits@).len() == hits@.len());
            Some(rule_refusal(ip, method, uri, &hits, score, time))
        },
    }
}

/// The parts of a request that the firewall looks at, its headers and body aside.
#[derive(Clone, Debug)]
pub struct RequestParts {
    pub method: String,
    pub uri: String,
    pub path_and_query: Option<String>,
    pub query: Option<String>,
}

impl RequestParts {
    /// What the rules see of the request.
    pub open spec fn seen(
        &self,
        fields: Seq<(Seq<char>, Seq<u8>)>,
        body: Seq<char>,
    ) -> engine::RequestView {
        engine::normalized_request(
            self.method@,
            cli::text_view(self.path_and_query),
            cli::text_view(self.query),
            fields,
            body,
        )
    }

    /// The request as an alert tells it.
    pub open spec fn subject(&self, ip: Seq<char>, time: u64) -> Subject {
        Subject { time, ip, method: self.method@, uri: self.uri@ }
    }

    fn target(&self) -> (r: Option<&str>)
        ensures
            engine::opt_view(r) == cli::text_view(self.path_and_query),
    {
        match &self.path_and_query {
            Some(s) => Some(s.as_str()),
            None => None,
        }
    }

    fn query_text(&self) -> (r: Option<&str>)
        ensures
            engine::opt_view(r) == cli::text_view(self.query),
    {
        match &self.query {
            Some(s) => Some(s.as_str()),
            None => None,
        }
    }
}

/// What is done next with a request.
pub enum Next {
    /// It is refused.
    Refuse(Refusal),
    /// The start of its body is read, and then looked at.
    ReadBody,
    /// It goes to the backend.
    Forward(ForwardPlan),
}

/// What is done once the rules have been looked at.
pub open spec fn follows(
    e: engine::EngineView,
    parts: RequestParts,
    fields: Seq<(Seq<char>, Seq<u8>)>,
    body: Seq<char>,
    ip: Seq<char>,
    backend: Seq<char>,
    time: u64,
    next: Next,
) -> bool {
    let req = parts.seen(fields, body);
    let s = parts.subject(ip, time);
    match next {
        Next::Refuse(f) => judged(e, req, s, Some(f)),
        Next::ReadBody => false,
        Next::Forward(plan) => {
            &&& judged(e, req, s, None)
            &&& plan.target@ == forward::target_of(backend, cli::text_view(parts.path_and_query))
            &&& headers::field_views(plan.fields@) == forward::forwarded_fields(fields, ip)
        },
    }
}

/// What is done with a request that passed the screening: its body is read where a rule
/// looks at bodies, and else it is looked at by the rules at once.
pub open spec fn proceeds(
    e: engine::EngineView,
    parts: RequestParts,
    fields: Seq<(Seq<char>, Seq<u8>)>,
    ip: Seq<char>,
    backend: Seq<char>,
    time: u64,
    next: Next,
) -> bool {
    if engine::uses_field(e.rules, RuleField::Body) {
        next is ReadBody
    } else {
        follows(e, parts, fields, Seq::empty(), ip, backend, time, next)
    }
}

/// What is done with a request that has arrived: it is screened, and goes on where the
/// screening lets it.
pub open spec fn begins(
    before: (bus::BusView, block::BlockView, limiter::LimiterView),
    after: (bus::BusView, block::BlockView, limiter::LimiterView),
    e: engine::EngineView,
    parts: RequestParts,
    fields: Seq<(Seq<char>, Seq<u8>)>,
    ip: Seq<char>,
    backend: Seq<char>,
    at: Readings,
    time: u64,
    next: Next,
) -> bool {
    let framed = headers::framed(fields);
    let s = parts.subject(ip, time);
    ||| next matches Next::Refuse(f) && screened(before, after, framed, s, at, Some(f))
    ||| screened(before, after, framed, s, at, None) && proceeds(
        e,
        parts,
        fields,
        ip,
        backend,
        time,
        next,
    )
}

/// Goes on with a request whose body need not be read, or whose start has been read.
pub fn resume_at(
    engine: &Engine,
    headers: &HeaderMap<HeaderValue>,
    parts: &RequestParts,
    ip: &str,
    backend: &str,
    body: &str,
    time: u64,
) -> (next: Next)
    requires
        engine.wf(),
    ensures
        follows(
            engine@,
            *parts,
            headers::header_fields(*headers),
            body@,
            ip@,
            backend@,
            time,
            next,
        ),
{
    match judge_at(
        engine,
        headers,
        ip,
        parts.method.as_str(),
        parts.uri.as_str(),
        parts.target(),
        parts.query_text(),
        body,
        time,
    ) {
        Some(f) => Next::Refuse(f),
        None => Next::Forward(forward::forward_plan(backend, parts.target(), headers, ip)),
    }
}

/// Goes on with a request whose body need not be read, or whose start has been read.
pub fn resume(
    engine: &Engine,
    headers: &HeaderMap<HeaderValue>,
    parts: &RequestParts,
    ip: &str,
    backend: &str,
    body: &str,
) -> (next: Next)
    requires
        engine.wf(),
    ensures
        exists|time: u64| #[trigger]
            follows(
                engine@,
                *parts,
                headers::header_fields(*headers),
                body@,
                ip@,
                backend@,
                time,
                next,
            ),
{
    let time = clock::unix_now();
    resume_at(engine, headers, parts, ip, backend, body, time)
}

/// Goes on with a request that passed the screening, at a given UNIX second.
pub fn proceed_at(
    engine: &Engine,
    headers: &HeaderMap<HeaderValue>,
    parts: &RequestParts,
    ip: &str,
    backend: &str,
    time: u64,
) -> (next: Next)
    requires
        engine.wf(),
    ensures
        proceeds(
            engine@,
            *parts,
            headers::header_fields(*headers),
            ip@,
            backend@,
            time,
            next,
        ),
{
    if engine.needs_body() {
        return Next::ReadBody;
    }
    proof {
        reveal_strlit("");
        assert(""@ =~= Seq::<char>::empty());
    }
    resume_at(engine, headers, parts, ip, backend, "", time)
}

/// Goes on with a request that passed the screening.
pub fn proceed(
    engine: &Engine,
    headers: &HeaderMap<HeaderValue>,
    parts: &RequestParts,
    ip: &str,
    backend: &str,
) -> (next: Next)
    requires
        engine.wf(),
    ensures
        exists|time: u64| #[trigger]
            proceeds(
                engine@,
                *parts,
                headers::header_fields(*headers),
                ip@,
                backend@,
                time,
                next,
            ),
{
    let time = clock::unix_now();
    proceed_at(engine, headers, parts, ip, backend, time)
}

/// Starts with a request that has arrived, by given readings of the clocks: screens it,
/// and goes on with it where the screening lets it.
pub fn begin_at(
    alerts: &mut AlertBus,
    list: &mut BlockList,
    limit: &mut RateLimiter,
    engine: &Engine,
    headers: &HeaderMap<HeaderValue>,
    parts: &RequestParts,
    ip: &str,
    backend: &str,
    at: Readings,
    time: u64,
) -> (next: Next)
    requires
        old(alerts).wf(),
        old(list).wf(),
        old(limit).wf(),
        engine.wf(),
    ensures
        final(alerts).wf(),
        final(list).wf(),
        final(limit).wf(),
        final(alerts).clock == old(alerts).clock,
        final(list).clock == old(list).clock,
        final(limit).clock == old(limit).clock,
        begins(
            (old(alerts)@, old(list)@, old(limit)@),
            (final(alerts)@, final(list)@, final(limit)@),
            engine@,
            *parts,
            headers::header_fields(*headers),
            ip@,
            backend@,
            at,
            time,
            next,
        ),
{
    let framed = headers::valid_request_boundaries(headers);
    match screen_at(
        alerts,
        list,
        limit,
        framed,
        ip,
        parts.method.as_str(),
        parts.uri.as_str(),
        at,
        time,
    ) {
        Some(f) => {
            return Next::Refuse(f);
        },
        None => {},
    }
    proceed_at(engine, headers, parts, ip, backend, time)
}

/// A request reaches the backend only if its end is not in doubt, its address not
/// blocked, its limit not reached and its score below the threshold; where it does its
/// bytes go on unread only if no rule looks at bodies.
pub proof fn law_only_good_requests_go_on(
    before: (bus::BusView, block::BlockView, limiter::LimiterView),
    after: (bus::BusView, block::BlockView, limiter::LimiterView),
    e: engine::EngineView,
    parts: RequestParts,
    fields: Seq<(Seq<char>, Seq<u8>)>,
    ip: Seq<char>,
    backend: Seq<char>,
    at: Readings,
    time: u64,
    next: Next,
)
    requires
        begins(before, after, e, parts, fields, ip, backend, at, time, next),
        next is Forward,
    ensures
        headers::framed(fields),
        !is_listed(before.1, ip, at.list),
        !limiter::over_limit(before.2, ip, at.limiter),
        !engine::uses_field(e.rules, RuleField::Body),
        parts.seen(fields, Seq::empty()).suspicious * 5 + engine::rule_score(
            e.rules,
            parts.seen(fields, Seq::empty()),
        ) < e.threshold,
{
}

/// A request whose body was read reaches the backend only if its score, that of the
/// start of its body included, is below the threshold.
pub proof fn law_body_is_judged_before_it_goes_on(
    e: engine::EngineView,
    parts: RequestParts,
    fields: Seq<(Seq<char>, Seq<u8>)>,
    body: Seq<char>,
    ip: Seq<char>,
    backend: Seq<char>,
    time: u64,
    next: Next,
)
    requires
        follows(e, parts, fields, body, ip, backend, time, next),
    ensures
        next is Forward <==> parts.seen(fields, body).suspicious * 5 + engine::rule_score(
            e.rules,
            parts.seen(fields, body),
        ) < e.threshold,
{
}

/// Records a refusal, and gives the answer to the client. The flag says whether the
/// alert is new; an alert that repeats the one before it is not told on.
pub fn report_and_block(alerts: &mut AlertBus, refusal: &Refusal) -> (r: (Reply, bool))
    requires
        old(alerts).wf(),
    ensures
        final(alerts).wf(),
        final(alerts).clock == old(alerts).clock,
        final(alerts)@ == bus::published(old(alerts)@, refusal.alert@),
        r.1 == !bus::repeats(old(alerts)@, refusal.alert@),
        r.0.status == refusal.status,
        r.0.content_type@ == "application/json"@,
        r.0.body@ == "{\"action\":\"block\"}"@,
{
    let fresh = alerts.publish(refusal.alert.copy());
    (Alert::block_response(refusal.status), fresh)
}

/// The answer to a request that the backend did not answer. It says nothing of the
/// reason.
pub fn bad_gateway_response() -> (r: Reply)
    ensures
        r.status == 502,
        r.content_type@ == "text/plain; charset=utf-8"@,
        r.body@ == "Bad Gateway"@,
{
    Reply {
        status: 502,
        content_type: "text/plain; charset=utf-8".to_owned(),
        body: "Bad Gateway".to_owned(),
    }
}

/// The bus after a request that was refused with an alert, or was not.
pub open spec fn bus_after(
    b: bus::BusView,
    now: Moment,
    alert: Option<bus::AlertView>,
) -> bus::BusView {
    let c = bus::counted(b, now);
    match alert {
        Some(a) => bus::published(c, a),
        None => c,
    }
}

/// Every request counts once, and no more requests are blocked than there were.
pub proof fn law_blocks_never_outnumber_requests(
    b: bus::BusView,
    now: Moment,
    alert: Option<bus::AlertView>,
)
    requires
        b.blocked <= b.total_requests < u64::MAX,
    ensures
        bus_after(b, now, alert).total_requests == b.total_requests + 1,
        bus_after(b, now, alert).blocked == b.blocked + if alert is Some {
            1int
        } else {
            0
        },
        bus_after(b, now, alert).blocked <= bus_after(b, now, alert).total_requests,
{
}

/// A request from a blocked address is refused as such, whatever its tokens and its
/// rules, and takes no token.
pub proof fn law_blocked_address_is_refused_first(
    before: (bus::BusView, block::BlockView, limiter::LimiterView),
    after: (bus::BusView, block::BlockView, limiter::LimiterView),
    s: Subject,
    at: Readings,
    r: Option<Refusal>,
)
    requires
        screened(before, after, true, s, at, r),
        is_listed(before.1, s.ip, at.list),
    ensures
        r matches Some(f) && f.status == 403 && f.alert@.category == "block"@,
        after.2 == before.2,
{
}

/// A refusal tells the request: its time, address, method and URI, and of the firewall the
/// category and detail, that it blocked, and that it was one request.
pub open spec fn tells(
    f: Refusal,
    s: Subject,
    status: u16,
    category: Seq<char>,
    detail: Seq<char>,
) -> bool {
    &&& f.status == status
    &&& f.alert@.time == s.time
    &&& f.alert@.ip == s.ip
    &&& f.alert@.method == s.method
    &&& f.alert@.path == s.uri
    &&& f.alert@.category == category
    &&& f.alert@.detail == detail
    &&& f.alert@.action == "block"@
    &&& f.alert@.count == 1
}

/// The screening refuses a request in doubt with 400, then one from an address whose
/// block lies ahead with 403, then one without a token with 429, and no other; it counts
/// every request once, asks the list and takes a token only where it gets so far.
pub proof fn law_screening(
    before: (bus::BusView, block::BlockView, limiter::LimiterView),
    after: (bus::BusView, block::BlockView, limiter::LimiterView),
    framed: bool,
    s: Subject,
    at: Readings,
    r: Option<Refusal>,
)
    requires
        screened(before, after, framed, s, at, r),
    ensures
        ({
            let blocked = addr::normalized(s.ip) is Some && before.1.map.contains_key(
                addr::normalized(s.ip).unwrap(),
            ) && before.1.map[addr::normalized(s.ip).unwrap()]@ > at.list@;
            let over = limiter::over_limit(before.2, s.ip, at.limiter);
            &&& r is None <==> framed && !blocked && !over
            &&& !framed ==> tells(
                r.unwrap(),
                s,
                400,
                "smuggling"@,
                "Content-Length/Transfer-Encoding 边界冲突"@,
            )
            &&& framed && blocked ==> tells(r.unwrap(), s, 403, "block"@, "IP 已封禁"@)
            &&& framed && !blocked && over ==> tells(
                r.unwrap(),
                s,
                429,
                "cc"@,
                "IP 频率超限"@,
            )
            &&& r matches Some(f) ==> f.alert@.rule_id == 0 && f.alert@.score == 0
                && f.alert@.hits.len() == 0
            &&& before.0.total_requests < 0xffff_ffff_ffff_ffff ==> after.0.total_requests
                == before.0.total_requests + 1
            &&& after.0.blocked == before.0.blocked
            &&& after.0.alerts == before.0.alerts
            &&& !framed ==> after.1 == before.1
            &&& !framed || blocked ==> after.2 == before.2
            &&& framed && !blocked ==> after.2 == limiter::limiter_after(
                before.2,
                s.ip,
                at.limiter,
            )
        }),
{
}

/// The rules refuse a request with 403 and the first of its hits: its category, `rule #`
/// and its number, the score of the request and all its hits.
pub proof fn law_rule_refusal(
    e: engine::EngineView,
    req: engine::RequestView,
    s: Subject,
    r: Option<Refusal>,
)
    requires
        judged(e, req, s, r),
    ensures
        r is Some <==> 5 * req.suspicious + engine::rule_score(e.rules, req) >= e.threshold,
        match (r, engine::verdict_of(e, req)) {
            (Some(f), engine::VerdictView::Block { hits, score }) => {
                &&& hits.len() > 0
                &&& tells(
                    f,
                    s,
                    403,
                    hits[0].category,
                    "rule #"@ + text::digits(hits[0].rule_id as nat, 10),
                )
                &&& f.alert@.rule_id == hits[0].rule_id
                &&& f.alert@.score == score
                &&& f.alert@.hits.len() == hits.len()
                &&& forall|i: int|
                    0 <= i < hits.len() ==> {
                        let h = #[trigger] f.alert@.hits[i];
                        h.rule_id == hits[i].rule_id && h.category == hits[i].category && h.score
                            == hits[i].score
                    }
            },
            _ => true,
        },
        r is Some ==> engine::verdict_of(e, req) is Block,
{
}

/// A request that is not in doubt, from an address that is not blocked and has a token
/// left, goes to the backend where no rule looks at bodies and its score is below the
/// threshold; where a rule looks at bodies its body is read.
pub proof fn law_good_requests_go_on(
    before: (bus::BusView, block::BlockView, limiter::LimiterView),
    after: (bus::BusView, block::BlockView, limiter::LimiterView),
    e: engine::EngineView,
    parts: RequestParts,
    fields: Seq<(Seq<char>, Seq<u8>)>,
    ip: Seq<char>,
    backend: Seq<char>,
    at: Readings,
    time: u64,
    next: Next,
)
    requires
        begins(before, after, e, parts, fields, ip, backend, at, time, next),
        headers::framed(fields),
        !is_listed(before.1, ip, at.list),
        !limiter::over_limit(before.2, ip, at.limiter),
    ensures
        engine::uses_field(e.rules, RuleField::Body) <==> next is ReadBody,
        !engine::uses_field(e.rules, RuleField::Body) ==> (next is Forward <==> parts.seen(
            fields,
            Seq::empty(),
        ).suspicious * 5 + engine::rule_score(e.rules, parts.seen(fields, Seq::empty()))
            < e.threshold),
{
}

/// An address is listed where the list holds its canonical text with an end that lies
/// ahead.
pub proof fn law_listed_addresses(v: block::BlockView, ip: Seq<char>, now: Moment)
    ensures
        addr::normalized(ip) is None ==> !is_listed(v, ip, now) && list_after(v, ip, now) == v,
        addr::normalized(ip) matches Some(key) ==> (is_listed(v, ip, now) <==> v.map.contains_key(
            key,
        ) && v.map[key]@ > now@) && list_after(v, ip, now) == block::asked(v, key, now),
{
}

/// What the rules see of a request, and what an alert tells of it, are the parts of that
/// request.
pub proof fn law_parts_of_a_request(
    parts: RequestParts,
    fields: Seq<(Seq<char>, Seq<u8>)>,
    body: Seq<char>,
    ip: Seq<char>,
    time: u64,
)
    ensures
        parts.seen(fields, body) == engine::normalized_request(
            parts.method@,
            if parts.path_and_query is Some {
                Some(parts.path_and_query.unwrap()@)
            } else {
                None
            },
            if parts.query is Some {
                Some(parts.query.unwrap()@)
            } else {
                None
            },
            fields,
            body,
        ),
        parts.subject(ip, time).ip == ip,
        parts.subject(ip, time).time == time,
        parts.subject(ip, time).method == parts.method@,
        parts.subject(ip, time).uri == parts.uri@,
{
}

/// A request that goes to the backend goes to its own path and query there, with its own
/// headers.
pub proof fn law_forwarded_request(
    e: engine::EngineView,
    parts: RequestParts,
    fields: Seq<(Seq<char>, Seq<u8>)>,
    body: Seq<char>,
    ip: Seq<char>,
    backend: Seq<char>,
    time: u64,
    plan: ForwardPlan,
)
    requires
        follows(e, parts, fields, body, ip, backend, time, Next::Forward(plan)),
    ensures
        parts.path_and_query matches Some(p) ==> plan.target@ == backend + p@,
        parts.path_and_query is None ==> plan.target@ == backend.push('/'),
        headers::field_views(plan.fields@) == forward::forwarded_fields(fields, ip),
{
    forward::law_path_is_kept(backend, Seq::empty());
}

/// A request that the screening refuses goes nowhere else, and one that the rules refuse is
/// answered with their refusal.
pub proof fn law_refused_requests_stop(
    before: (bus::BusView, block::BlockView, limiter::LimiterView),
    after: (bus::BusView, block::BlockView, limiter::LimiterView),
    e: engine::EngineView,
    parts: RequestParts,
    fields: Seq<(Seq<char>, Seq<u8>)>,
    ip: Seq<char>,
    backend: Seq<char>,
    at: Readings,
    time: u64,
    next: Next,
)
    requires
        begins(before, after, e, parts, fields, ip, backend, at, time, next),
    ensures
        !headers::framed(fields) || is_listed(before.1, ip, at.list) || limiter::over_limit(
            before.2,
            ip,
            at.limiter,
        ) ==> next is Refuse && screened(
            before,
            after,
            headers::framed(fields),
            parts.subject(ip, time),
            at,
            Some(next->Refuse_0),
        ),
        headers::framed(fields) && !is_listed(before.1, ip, at.list) && !limiter::over_limit(
            before.2,
            ip,
            at.limiter,
        ) && next is Refuse ==> judged(
            e,
            parts.seen(fields, Seq::empty()),
            parts.subject(ip, time),
            Some(next->Refuse_0),
        ),
{
}

/// Once the start of the body was read the request is refused by the rules or goes on, and
/// nothing else.
pub proof fn law_body_decides(
    e: engine::EngineView,
    parts: RequestParts,
    fields: Seq<(Seq<char>, Seq<u8>)>,
    body: Seq<char>,
    ip: Seq<char>,
    backend: Seq<char>,
    time: u64,
    next: Next,
)
    requires
        follows(e, parts, fields, body, ip, backend, time, next),
    ensures
        !(next is ReadBody),
        next matches Next::Refuse(f) ==> judged(
            e,
            parts.seen(fields, body),
            parts.subject(ip, time),
            Some(f),
        ),
        next is Forward ==> judged(e, parts.seen(fields, body), parts.subject(ip, time), None),
{
}

} // verus!
