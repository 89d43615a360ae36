//! The management API: who may use it, and what it answers.

use crate::addr;
use crate::block::{self, BlockList, BlockedEntry};
use crate::bus::Reply;
use crate::clock::{self, Moment};
use crate::headers;
use crate::text;
use hyper::header::HeaderValue;
use hyper::HeaderMap;
use std::time::Duration;
use vstd::prelude::*;

verus! {

/// A token with more bytes is refused without a look at it.
pub const MAX_TOKEN_LEN: usize = 4096;

/// An address is blocked for so many seconds at most.
pub const MAX_BLOCK_SECS: u64 = 604_800;

/// The text of an address has so many bytes at most.
pub const MAX_IP_LEN: usize = 45;

/// So many alerts are shown.
pub const ALERTS_SHOWN: usize = 100;

/// What becomes of a request to the API.
#[derive(Clone, Copy, Debug, PartialEq, Eq, Structural)]
pub enum Access {
    Granted,
    Unauthorized,
    TokenTooLarge,
}

/// The token in one part of a query.
pub open spec fn token_in_pair(pair: Seq<char>) -> Option<Seq<char>> {
    match text::parted(pair, '=') {
        Some((k, v)) => if k == "token"@ {
            Some(v)
        } else {
            None
        },
        None => None,
    }
}

/// The token in the first part of a query, from `i` on, that holds one.
pub open spec fn token_in(pairs: Seq<Seq<char>>, i: int) -> Option<Seq<char>>
    decreases pairs.len() - i,
{
    if i >= pairs.len() {
        None
    } else {
        match token_in_pair(pairs[i]) {
            Some(t) => Some(t),
            None => token_in(pairs, i + 1),
        }
    }
}

/// The token that a request presents: the alert stream takes it from the query, all
/// else from the `Authorization` header.
pub open spec fn presented(
    path: Seq<char>,
    query: Option<Seq<char>>,
    authorization: Option<Seq<char>>,
) -> Option<Seq<char>> {
    if path == "/ws/alerts"@ {
        match query {
            Some(q) => token_in(text::split_at_char(q, '&'), 0),
            None => None,
        }
    } else {
        match authorization {
            Some(a) => if "Bearer "@.is_prefix_of(a) {
                Some(a.skip("Bearer "@.len() as int))
            } else {
                None
            },
            None => None,
        }
    }
}

/// What becomes of a request. The page at the root is open to everyone.
pub open spec fn access(
    path: Seq<char>,
    query: Option<Seq<char>>,
    authorization: Option<Seq<char>>,
    token: Seq<char>,
) -> Access {
    if path == "/"@ {
        Access::Granted
    } else {
        match presented(path, query, authorization) {
            None => Access::Unauthorized,
            Some(t) => if text::bytes_of(t).len() > MAX_TOKEN_LEN {
                Access::TokenTooLarge
            } else if text::bytes_of(t) == text::bytes_of(token) {
                Access::Granted
            } else {
                Access::Unauthorized
            },
        }
    }
}

/// The first value of a header, where that is text.
pub open spec fn first_text(
    fields: Seq<(Seq<char>, Seq<u8>)>,
    name: Seq<char>,
) -> Option<Seq<char>> {
    let values = headers::values_of(fields, name);
    if values.len() == 0 {
        None
    } else {
        headers::header_text_of(values[0])
    }
}

/// Compares two byte strings. The time it takes does not depend on where they differ.
pub fn constant_time_eq(a: &[u8], b: &[u8]) -> (r: bool)
    ensures
        r == (a@ == b@),
{
    if a.len() != b.len() {
        return false;
    }
    let mut diff: u8 = 0;
    let mut i: usize = 0;
    assert(a@.take(0) =~= b@.take(0));
    while i < a.len()
        invariant
            i <= a@.len(),
            a@.len() == b@.len(),
            diff == 0 <==> a@.take(i as int) == b@.take(i as int),
        decreases a@.len() - i,
    {
        let x = a[i];
        let y = b[i];
        assert((diff | (x ^ y)) == 0 <==> diff == 0 && x == y) by (bit_vector);
        proof {
            let (p, q) = (a@.take(i as int), b@.take(i as int));
            let (p2, q2) = (a@.take(i as int + 1), b@.take(i as int + 1));
            assert(p2 =~= p.push(x));
            assert(q2 =~= q.push(y));
            if p2 == q2 {
                assert(p =~= p2.drop_last());
                assert(q =~= q2.drop_last());
                assert(p2.last() == q2.last());
            }
        }
        diff = diff | (x ^ y);
        i += 1;
    }
    assert(a@.take(a@.len() as int) =~= a@);
    assert(b@.take(b@.len() as int) =~= b@);
    diff == 0
}

fn query_token(query: &str) -> (r: Option<String>)
    ensures
        match r {
            Some(t) => token_in(text::split_at_char(query@, '&'), 0) == Some(t@),
            None => token_in(text::split_at_char(query@, '&'), 0) is None,
        },
{
    let pairs = text::split(query, '&');
    let ghost all = text::split_at_char(query@, '&');
    let mut i: usize = 0;
    while i < pairs.len()
        invariant
            i <= pairs@.len(),
            all == text::views(pairs@),
            all == text::split_at_char(query@, '&'),
            token_in(all, 0) == token_in(all, i as int),
        decreases pairs@.len() - i,
    {
        assert(all[i as int] == pairs@[i as int]@);
        match text::split_once(pairs[i].as_str(), '=') {
            Some((k, v)) => {
                if text::same_text(k.as_str(), "token") {
                    return Some(v);
                }
            },
            None => {},
        }
        i += 1;
    }
    None
}

/// What becomes of a request with this text in its `Authorization` header.
pub fn access_by(path: &str, query: Option<&str>, authorization: Option<&str>, token: &str) -> (r:
    Access)
    ensures
        r == access(
            path@,
            crate::engine::opt_view(query),
            crate::engine::opt_view(authorization),
            token@,
        ),
{
    if text::same_text(path, "/") {
        return Access::Granted;
    }
    let shown: Option<String> = if text::same_text(path, "/ws/alerts") {
        match query {
            Some(q) => query_token(q),
            None => None,
        }
    } else {
        match authorization {
            Some(a) => text::strip_prefix(a, "Bearer "),
            None => None,
        }
    };
    match shown {
        Some(t) => {
            let bytes = t.as_str().as_bytes();
            if bytes.len() > MAX_TOKEN_LEN {
                Access::TokenTooLarge
            } else if constant_time_eq(bytes, token.as_bytes()) {
                Access::Granted
            } else {
                Access::Unauthorized
            }
        },
        None => Access::Unauthorized,
    }
}

/// What becomes of a request.
pub fn authorize(
    path: &str,
    query: Option<&str>,
    headers: &HeaderMap<HeaderValue>,
    token: &str,
) -> (r: Access)
    ensures
        r == access(
            path@,
            crate::engine::opt_view(query),
            first_text(headers::header_fields(*headers), "authorization"@),
            token@,
        ),
{
    proof {
        reveal_strlit("authorization");
        assert(text::lower("authorization"@) =~= "authorization"@);
    }
    let values = headers::all_values(headers, "authorization");
    let ghost all = headers::values_of(headers::header_fields(*headers), "authorization"@);
    assert(all.len() == values@.len());
    let authorization: Option<String> = if values.len() == 0 {
        None
    } else {
        assert(all[0] == values@[0]@);
        headers::header_text(&values[0])
    };
    let authorization: Option<&str> = match &authorization {
        Some(s) => Some(s.as_str()),
        None => None,
    };
    access_by(path, query, authorization, token)
}

/// The answer to a request without a good token.
pub fn unauthorized() -> (r: Reply)
    ensures
        r.status == 401,
        r.content_type@ == "application/json"@,
        r.body@ == "{\"error\":\"unauthorized\"}"@,
{
    Reply {
        status: 401,
        content_type: "application/json".to_owned(),
        body: "{\"error\":\"unauthorized\"}".to_owned(),
    }
}

/// The answer to a request whose token is too large.
pub fn token_too_large() -> (r: Reply)
    ensures
        r.status == 413,
        r.content_type@ == "application/json"@,
        r.body@ == "{\"error\":\"Token too large (max 4096 bytes)\"}"@,
{
    Reply {
        status: 413,
        content_type: "application/json".to_owned(),
        body: "{\"error\":\"Token too large (max 4096 bytes)\"}".to_owned(),
    }
}

/// The answer that stands between a request and the API, if one does.
pub fn refusal(a: Access) -> (r: Option<Reply>)
    ensures
        match r {
            None => a is Granted,
            Some(reply) => {
                &&& reply.content_type@ == "application/json"@
                &&& (a is Unauthorized && reply.status == 401 && reply.body@
                    == "{\"error\":\"unauthorized\"}"@) || (a is TokenTooLarge && reply.status
                    == 413 && reply.body@
                    == "{\"error\":\"Token too large (max 4096 bytes)\"}"@)
            },
        },
{
    match a {
        Access::Granted => None,
        Access::Unauthorized => Some(unauthorized()),
        Access::TokenTooLarge => Some(token_too_large()),
    }
}

/// The headers of the page at the root: it may not be framed, its type not guessed,
/// and its address not told on.
pub fn index_headers() -> (h: Vec<(&'static str, &'static str)>)
    ensures
        h@.len() == 4,
        h@[0].0@ == "x-frame-options"@ && h@[0].1@ == "DENY"@,
        h@[1].0@ == "x-content-type-options"@ && h@[1].1@ == "nosniff"@,
        h@[2].0@ == "referrer-policy"@ && h@[2].1@ == "no-referrer"@,
        h@[3].0@ == "content-security-policy"@ && h@[3].1@
            == "default-src 'none'; script-src 'unsafe-inline'; style-src 'unsafe-inline'; connect-src http: https: ws: wss:; frame-ancestors 'none'"@,
{
    let mut h: Vec<(&'static str, &'static str)> = Vec::new();
    h.push(("x-frame-options", "DENY"));
    h.push(("x-content-type-options", "nosniff"));
    h.push(("referrer-policy", "no-referrer"));
    h.push(
        (
            "content-security-policy",
            "default-src 'none'; script-src 'unsafe-inline'; style-src 'unsafe-inline'; connect-src http: https: ws: wss:; frame-ancestors 'none'",
        ),
    );
    h
}

/// The time for which an address is blocked where the request does not say.
pub fn default_block_secs() -> (n: u64)
    ensures
        n == 300,
{
    300
}

/// The answer to a request to block an address.
#[derive(Clone, Debug)]
pub enum BlockAnswer {
    Blocked(BlockedEntry),
    Refused(String),
}

impl BlockAnswer {
    /// The status of the answer.
    pub fn status(&self) -> (code: u16)
        ensures
            code == (if self is Blocked {
                200u16
            } else {
                400u16
            }),
    {
        match self {
            BlockAnswer::Blocked(_) => 200,
            BlockAnswer::Refused(_) => 400,
        }
    }
}

/// Why a request to block is refused before the list is asked.
pub open spec fn block_fault(ip: Seq<char>, secs: u64) -> Option<Seq<char>> {
    if secs == 0 || secs > MAX_BLOCK_SECS {
        Some("duration_secs 必须在 1~604800 之间"@)
    } else if text::bytes_of(ip).len() > MAX_IP_LEN {
        Some("IP 长度非法"@)
    } else {
        None
    }
}

fn find_block_fault(ip: &str, secs: u64) -> (r: Option<String>)
    ensures
        match r {
            Some(s) => block_fault(ip@, secs) == Some(s@),
            None => block_fault(ip@, secs) is None,
        },
{
    if secs == 0 || secs > MAX_BLOCK_SECS {
        return Some("duration_secs 必须在 1~604800 之间".to_owned());
    }
    if ip.as_bytes().len() > MAX_IP_LEN {
        return Some("IP 长度非法".to_owned());
    }
    None
}

/// What a request to block does to the table, and what it is answered. The length of
/// the block and of the text are looked at before the list is asked.
pub open spec fn answers(
    before: block::BlockView,
    after: block::BlockView,
    ip: Seq<char>,
    secs: u64,
    at: (Moment, Moment, u64),
    r: BlockAnswer,
) -> bool {
    match block_fault(ip, secs) {
        Some(fault) => after == before && is_refused(r, fault),
        None => block::blocks(
            before,
            after,
            ip,
            (secs * 1_000_000_000) as u128,
            at,
            match r {
                BlockAnswer::Blocked(e) => Ok(e),
                BlockAnswer::Refused(e) => Err(e),
            },
        ),
    }
}

/// Blocks an address at a moment, for some seconds.
pub fn block_at(
    list: &mut BlockList,
    ip: &str,
    secs: u64,
    now: Moment,
    reading: Moment,
    unix_now: u64,
) -> (r: BlockAnswer)
    requires
        old(list).wf(),
    ensures
        final(list).wf(),
        final(list).clock == old(list).clock,
        answers(old(list)@, final(list)@, ip@, secs, (now, reading, unix_now), r),
{
    match find_block_fault(ip, secs) {
        Some(fault) => {
            return BlockAnswer::Refused(fault);
        },
        None => {},
    }
    let duration = Duration::from_secs(secs);
    match list.block_at(ip, duration, now, reading, unix_now) {
        Ok(entry) => BlockAnswer::Blocked(entry),
        Err(e) => BlockAnswer::Refused(e),
    }
}

/// The answer is a refusal with this message.
pub open spec fn is_refused(r: BlockAnswer, message: Seq<char>) -> bool {
    r matches BlockAnswer::Refused(e) && e@ == message
}

/// Blocks an address now, for some seconds.
pub fn block(list: &mut BlockList, ip: &str, secs: u64) -> (r: BlockAnswer)
    requires
        old(list).wf(),
    ensures
        final(list).wf(),
        final(list).clock == old(list).clock,
        exists|at: (Moment, Moment, u64)|
            clock::is_reading(at.0) && clock::is_reading(at.1) && #[trigger] answers(
                old(list)@,
                final(list)@,
                ip@,
                secs,
                at,
                r,
            ),
{
    let now = list.clock.now();
    let reading = list.clock.now();
    let unix_now = clock::unix_now();
    let r = block_at(list, ip, secs, now, reading, unix_now);
    assert(answers(old(list)@, list@, ip@, secs, (now, reading, unix_now), r));
    r
}

/// The answer to a request to free an address.
#[derive(Clone, Debug)]
pub enum UnblockAnswer {
    Freed,
    NotBlocked,
    Invalid(String),
}

impl UnblockAnswer {
    /// The status of the answer.
    pub fn status(&self) -> (code: u16)
        ensures
            code == (match *self {
                UnblockAnswer::Freed => 200u16,
                UnblockAnswer::NotBlocked => 404u16,
                UnblockAnswer::Invalid(_) => 400u16,
            }),
    {
        match self {
            UnblockAnswer::Freed => 200,
            UnblockAnswer::NotBlocked => 404,
            UnblockAnswer::Invalid(_) => 400,
        }
    }

    /// The message of an answer that is a refusal.
    pub fn message(&self) -> (r: Option<String>)
        ensures
            match *self {
                UnblockAnswer::Freed => r is None,
                UnblockAnswer::NotBlocked => r matches Some(s) && s@ == "IP 不在封禁列表"@,
                UnblockAnswer::Invalid(e) => r matches Some(s) && s@ == e@,
            },
    {
        match self {
            UnblockAnswer::Freed => None,
            UnblockAnswer::NotBlocked => Some("IP 不在封禁列表".to_owned()),
            UnblockAnswer::Invalid(e) => Some(e.clone()),
        }
    }
}

/// Frees an address.
pub fn unblock(list: &mut BlockList, ip: &str) -> (r: UnblockAnswer)
    requires
        old(list).wf(),
    ensures
        final(list).wf(),
        final(list).clock == old(list).clock,
        match addr::normalized(ip@) {
            None => final(list)@ == old(list)@ && is_invalid(r, addr::invalid_ip_message(ip@)),
            Some(key) => {
                &&& final(list)@ == block::without(old(list)@, key)
                &&& if old(list)@.map.contains_key(key) {
                    r is Freed
                } else {
                    r is NotBlocked
                }
            },
        },
{
    match list.unblock(ip) {
        Ok(true) => UnblockAnswer::Freed,
        Ok(false) => UnblockAnswer::NotBlocked,
        Err(e) => UnblockAnswer::Invalid(e),
    }
}

/// The answer is that the text is no address.
pub open spec fn is_invalid(r: UnblockAnswer, message: Seq<char>) -> bool {
    r matches UnblockAnswer::Invalid(e) && e@ == message
}

/// What can happen on an alert stream.
#[derive(Clone, Copy, Debug, PartialEq, Eq, Structural)]
pub enum StreamEvent {
    /// There is a new alert.
    Alert,
    /// The client was too slow and has missed alerts.
    Lagged,
    /// There will be no more alerts.
    Closed,
    /// It is time for a sign of life.
    Heartbeat,
    /// The client has closed the stream, or it broke.
    Gone,
    /// The client has sent something else.
    Message,
    /// What was sent last did not reach the client.
    SendFailed,
}

/// What is done on an alert stream.
#[derive(Clone, Copy, Debug, PartialEq, Eq, Structural)]
pub enum StreamAction {
    SendAlert,
    SendPing,
    Wait,
    Stop,
}

/// What an event on an alert stream calls for. A slow client is not dropped.
pub fn stream_step(event: StreamEvent) -> (action: StreamAction)
    ensures
        action is SendAlert <==> event is Alert,
        action is SendPing <==> event is Heartbeat,
        action is Wait <==> event is Lagged || event is Message,
        action is Stop <==> event is Closed || event is Gone || event is SendFailed,
{
    match event {
        StreamEvent::Alert => StreamAction::SendAlert,
        StreamEvent::Heartbeat => StreamAction::SendPing,
        StreamEvent::Lagged => StreamAction::Wait,
        StreamEvent::Message => StreamAction::Wait,
        StreamEvent::Closed => StreamAction::Stop,
        StreamEvent::Gone => StreamAction::Stop,
        StreamEvent::SendFailed => StreamAction::Stop,
    }
}

/// Only one who presents the token gets in, the page at the root aside.
pub proof fn law_granted_only_with_the_token(
    path: Seq<char>,
    query: Option<Seq<char>>,
    authorization: Option<Seq<char>>,
    token: Seq<char>,
)
    requires
        path != "/"@,
        access(path, query, authorization, token) is Granted,
    ensures
        presented(path, query, authorization) == Some(token),
{
    let t = presented(path, query, authorization).unwrap();
    vstd::utf8::encode_utf8_decode_utf8(t);
    vstd::utf8::encode_utf8_decode_utf8(token);
}

/// One who presents the token gets in, if it is not too large.
pub proof fn law_the_token_grants(
    path: Seq<char>,
    query: Option<Seq<char>>,
    authorization: Option<Seq<char>>,
    token: Seq<char>,
)
    requires
        presented(path, query, authorization) == Some(token),
        text::bytes_of(token).len() <= MAX_TOKEN_LEN,
    ensures
        access(path, query, authorization, token) is Granted,
{
}

/// A token in the query opens nothing but the alert stream.
pub proof fn law_query_token_is_for_the_stream_only(
    path: Seq<char>,
    query: Option<Seq<char>>,
    other: Option<Seq<char>>,
    authorization: Option<Seq<char>>,
    token: Seq<char>,
)
    requires
        path != "/ws/alerts"@,
    ensures
        access(path, query, authorization, token) == access(path, other, authorization, token),
{
}

/// A token in the header does not open the alert stream.
pub proof fn law_stream_ignores_the_header(
    query: Option<Seq<char>>,
    authorization: Option<Seq<char>>,
    other: Option<Seq<char>>,
    token: Seq<char>,
)
    ensures
        access("/ws/alerts"@, query, authorization, token) == access(
            "/ws/alerts"@,
            query,
            other,
            token,
        ),
{
}

/// A token is presented in the header behind `Bearer ` on every path but that of the
/// stream; a header of any other form presents none.
pub proof fn law_bearer_tokens(path: Seq<char>, query: Option<Seq<char>>, token: Seq<char>)
    requires
        path != "/ws/alerts"@,
    ensures
        presented(
            path,
            query,
            Some(seq!['B', 'e', 'a', 'r', 'e', 'r', ' '] + token),
        ) == Some(token),
        presented(path, query, None) is None,
        !seq!['B', 'e', 'a', 'r', 'e', 'r', ' '].is_prefix_of(token) ==> presented(
            path,
            query,
            Some(token),
        ) is None,
{
    reveal_strlit("Bearer ");
    let prefix = seq!['B', 'e', 'a', 'r', 'e', 'r', ' '];
    assert("Bearer "@ =~= prefix);
    assert((prefix + token).skip(7) =~= token);
}

/// On the path of the stream the token is the value of the first pair of the query whose
/// key is `token`; a query without such a pair presents none.
pub proof fn law_stream_tokens(query: Seq<char>, header: Option<Seq<char>>, i: int)
    ensures
        ({
            let pairs = text::split_at_char(query, '&');
            let shown = presented("/ws/alerts"@, Some(query), header);
            &&& presented("/ws/alerts"@, None, header) is None
            &&& shown is None <==> forall|k: int|
                0 <= k < pairs.len() ==> !is_token_pair(#[trigger] pairs[k])
            &&& 0 <= i < pairs.len() && is_token_pair(pairs[i]) && (forall|k: int|
                0 <= k < i ==> !is_token_pair(#[trigger] pairs[k])) ==> shown == Some(
                pairs[i].skip(6),
            )
        }),
{
    let pairs = text::split_at_char(query, '&');
    lemma_first_token(pairs, 0, i);
}

/// A pair of the query starts with `token=`.
pub open spec fn is_token_pair(pair: Seq<char>) -> bool {
    seq!['t', 'o', 'k', 'e', 'n', '='].is_prefix_of(pair)
}

proof fn lemma_token_pair(pair: Seq<char>)
    ensures
        token_in_pair(pair) is Some <==> is_token_pair(pair),
        is_token_pair(pair) ==> token_in_pair(pair) == Some(pair.skip(6)),
{
    reveal_strlit("token");
    let word = seq!['t', 'o', 'k', 'e', 'n'];
    let prefix = seq!['t', 'o', 'k', 'e', 'n', '='];
    assert("token"@ =~= word);
    text::law_parting(pair, '=');
    if is_token_pair(pair) {
        assert(pair[5] == prefix[5]);
        assert(pair.contains(pair[5]));
        let (k, v) = text::parted(pair, '=').unwrap();
        assert(pair == k.push('=') + v);
        if k.len() < 5 {
            assert(pair[k.len() as int] == '=');
            assert(pair[k.len() as int] == prefix[k.len() as int]);
        } else if k.len() > 5 {
            assert(k[5] == pair[5]);
            assert(k.contains(k[5]));
        }
        assert forall|j: int| 0 <= j < 5 implies k[j] == word[j] by {
            assert(pair[j] == prefix[j]);
        }
        assert(k =~= word);
        assert(v =~= pair.skip(6));
    }
    if let Some((k, v)) = text::parted(pair, '=') {
        if k == word {
            assert(k.push('=') =~= prefix);
            assert(prefix.is_prefix_of(pair)) by {
                assert(pair.take(6) =~= prefix);
            }
        }
    }
}

proof fn lemma_first_token(pairs: Seq<Seq<char>>, from: int, i: int)
    requires
        0 <= from <= pairs.len(),
    ensures
        token_in(pairs, from) is None <==> forall|k: int|
            from <= k < pairs.len() ==> !is_token_pair(#[trigger] pairs[k]),
        from <= i < pairs.len() && is_token_pair(pairs[i]) && (forall|k: int|
            from <= k < i ==> !is_token_pair(#[trigger] pairs[k])) ==> token_in(pairs, from)
            == Some(pairs[i].skip(6)),
    decreases pairs.len() - from,
{
    if from < pairs.len() {
        lemma_token_pair(pairs[from]);
        lemma_first_token(pairs, from + 1, i);
    }
}

/// The page at the root is open. On any other path one who presents nothing is refused,
/// one whose token is longer than 4096 bytes is told so, and of the others those get in
/// whose token is the right one.
pub proof fn law_access(
    path: Seq<char>,
    query: Option<Seq<char>>,
    authorization: Option<Seq<char>>,
    token: Seq<char>,
)
    ensures
        access(seq!['/'], query, authorization, token) is Granted,
        path != seq!['/'] ==> access(path, query, authorization, token) == match presented(
            path,
            query,
            authorization,
        ) {
            None => Access::Unauthorized,
            Some(t) => if text::bytes_of(t).len() > 4096 {
                Access::TokenTooLarge
            } else if t == token {
                Access::Granted
            } else {
                Access::Unauthorized
            },
        },
{
    reveal_strlit("/");
    assert("/"@ =~= seq!['/']);
    if let Some(t) = presented(path, query, authorization) {
        vstd::utf8::encode_utf8_decode_utf8(t);
        vstd::utf8::encode_utf8_decode_utf8(token);
    }
}

/// The first header of a name counts, where it is text.
pub proof fn law_first_header_counts(
    fields: Seq<(Seq<char>, Seq<u8>)>,
    name: Seq<char>,
    i: int,
)
    ensures
        0 <= i < fields.len() && fields[i].0 == name && (forall|j: int|
            0 <= j < i ==> (#[trigger] fields[j]).0 != name) ==> first_text(fields, name)
            == headers::header_text_of(fields[i].1),
        (forall|j: int| 0 <= j < fields.len() ==> (#[trigger] fields[j]).0 != name) ==> first_text(
            fields,
            name,
        ) is None,
{
    headers::law_first_value(fields, name, i);
}

/// A block can be asked for from one second to seven days, for a text of up to 45 bytes,
/// and is then made for exactly so long; every other is refused and changes nothing.
pub proof fn law_blocks_that_can_be_asked_for(
    before: block::BlockView,
    after: block::BlockView,
    ip: Seq<char>,
    secs: u64,
    at: (Moment, Moment, u64),
    r: BlockAnswer,
)
    requires
        answers(before, after, ip, secs, at, r),
    ensures
        secs == 0 || secs > 604_800 ==> after == before && r is Refused && r->Refused_0@
            == "duration_secs 必须在 1~604800 之间"@,
        1 <= secs <= 604_800 && text::bytes_of(ip).len() > 45 ==> after == before && r is Refused
            && r->Refused_0@ == "IP 长度非法"@,
        1 <= secs <= 604_800 && text::bytes_of(ip).len() <= 45 && addr::normalized(ip) is None
            ==> after == before && r is Refused && r->Refused_0@ == "无效 IP: "@ + ip,
        1 <= secs <= 604_800 && text::bytes_of(ip).len() <= 45 && addr::normalized(ip) is Some
            && at.0@ <= 9_000_000_000_000_000_000_000_000_000 ==> {
            let key = addr::normalized(ip).unwrap();
            &&& r is Blocked
            &&& r->Blocked_0.ip@ == key
            &&& after.map.contains_key(key)
            &&& after.map[key]@ == at.0@ + secs * 1_000_000_000
        },
{
}

} // verus!
