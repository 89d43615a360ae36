//! The rule engine: a request is normalised, matched against the rules and scored.

use crate::config::{Config, Rule, RuleField};
use crate::decode;
use crate::headers;
use crate::matcher;
use crate::table::Table;
use crate::text;
use aho_corasick::{AhoCorasick, BuildError};
use hyper::header::HeaderValue;
use hyper::HeaderMap;
use regex::Regex;
use vstd::prelude::*;

verus! {

/// A request in the form in which the rules see it.
pub struct NormalizedRequest {
    pub method: String,
    /// Path and query, decoded once.
    pub url: String,
    /// The query, decoded once.
    pub args: String,
    /// All headers in one line.
    pub headers: String,
    pub body: String,
    /// Each header under its name in lower case; the values of a name that occurs more
    /// than once are joined by a comma.
    pub header_values: Table<String>,
    /// The number of dangerous control bytes that the request held.
    pub suspicious: u32,
}

/// What the rules see of a request.
#[verifier::ext_equal]
pub ghost struct RequestView {
    pub method: Seq<char>,
    pub url: Seq<char>,
    pub args: Seq<char>,
    pub headers: Seq<char>,
    pub body: Seq<char>,
    pub header_values: Map<Seq<char>, Seq<char>>,
    pub suspicious: u32,
}

impl View for NormalizedRequest {
    type V = RequestView;

    open spec fn view(&self) -> RequestView {
        RequestView {
            method: self.method@,
            url: self.url@,
            args: self.args@,
            headers: self.headers@,
            body: self.body@,
            header_values: self.header_values@.map_values(|s: String| s@),
            suspicious: self.suspicious,
        }
    }
}

/// All headers in one line: `name=value `, one after the other.
pub open spec fn flat_headers(fields: Seq<(Seq<char>, Seq<u8>)>) -> Seq<char>
    decreases fields.len(),
{
    if fields.len() == 0 {
        Seq::empty()
    } else {
        flat_headers(fields.drop_last()) + fields.last().0 + seq!['='] + text::lossy(
            fields.last().1,
        ) + seq![' ']
    }
}

/// The value of each header name, in lower case; several values are joined by a comma
/// and a space.
pub open spec fn joined_headers(fields: Seq<(Seq<char>, Seq<u8>)>) -> Map<Seq<char>, Seq<char>>
    decreases fields.len(),
{
    if fields.len() == 0 {
        Map::empty()
    } else {
        let before = joined_headers(fields.drop_last());
        let name = text::lower(fields.last().0);
        let value = text::lossy(fields.last().1);
        if before.contains_key(name) {
            before.insert(name, before[name] + seq![',', ' '] + value)
        } else {
            before.insert(name, value)
        }
    }
}

/// The path and query that the rules look at; a request without any counts as `/`.
pub open spec fn target_of(path_and_query: Option<Seq<char>>) -> Seq<char> {
    match path_and_query {
        Some(t) => t,
        None => seq!['/'],
    }
}

/// The query that the rules look at; a request without any counts as empty.
pub open spec fn query_of(query: Option<Seq<char>>) -> Seq<char> {
    match query {
        Some(q) => q,
        None => Seq::empty(),
    }
}

/// The text behind an optional reference.
pub open spec fn opt_view(s: Option<&str>) -> Option<Seq<char>> {
    match s {
        Some(t) => Some(t@),
        None => None,
    }
}

/// The dangerous bytes of a request: those of the path and query, where each of them
/// counts once.
pub open spec fn request_suspicion(path_and_query: Option<Seq<char>>) -> nat {
    decode::suspicion(text::bytes_of(target_of(path_and_query)))
}

/// What the rules see of a request with these parts.
pub open spec fn normalized_request(
    method: Seq<char>,
    path_and_query: Option<Seq<char>>,
    query: Option<Seq<char>>,
    fields: Seq<(Seq<char>, Seq<u8>)>,
    body: Seq<char>,
) -> RequestView {
    RequestView {
        method,
        url: text::lossy(decode::normalized(text::bytes_of(target_of(path_and_query)))),
        args: text::lossy(decode::normalized(text::bytes_of(query_of(query)))),
        headers: flat_headers(fields),
        body,
        header_values: joined_headers(fields),
        suspicious: decode::capped(request_suspicion(path_and_query)),
    }
}

/// The text that a rule on `field`, for the header `header`, looks at.
pub open spec fn field_text(r: RequestView, field: RuleField, header: Option<Seq<char>>) -> Seq<
    char,
> {
    match (field, header) {
        (RuleField::Header, Some(name)) => {
            if r.header_values.contains_key(text::lower(name)) {
                r.header_values[text::lower(name)]
            } else {
                Seq::empty()
            }
        },
        (RuleField::Url, _) => r.url,
        (RuleField::Args, _) => r.args,
        (RuleField::Header, None) => r.headers,
        (RuleField::Body, _) => r.body,
        (RuleField::Method, _) => r.method,
    }
}

impl NormalizedRequest {
    /// The header table is consistent.
    pub open spec fn wf(&self) -> bool {
        self.header_values.wf()
    }

    /// Normalises a request. The query is part of `path_and_query`, where its dangerous
    /// bytes are counted.
    pub fn from_parts(
        method: &str,
        path_and_query: Option<&str>,
        query: Option<&str>,
        headers: &HeaderMap<HeaderValue>,
        body: &str,
    ) -> (r: Self)
        ensures
            r.wf(),
            r@ == normalized_request(
                method@,
                opt_view(path_and_query),
                opt_view(query),
                headers::header_fields(*headers),
                body@,
            ),
    {
        let fields = headers::fields_of(headers);
        NormalizedRequest::from_fields(method, path_and_query, query, &fields, body)
    }

    /// Normalises a request whose header fields have been taken out of their map.
    pub fn from_fields(
        method: &str,
        path_and_query: Option<&str>,
        query: Option<&str>,
        fields: &Vec<(String, Vec<u8>)>,
        body: &str,
    ) -> (r: Self)
        ensures
            r.wf(),
            r@ == normalized_request(
                method@,
                opt_view(path_and_query),
                opt_view(query),
                headers::field_views(fields@),
                body@,
            ),
    {
        let target = match path_and_query {
            Some(t) => t.to_owned(),
            None => {
                let mut s = String::new();
                s.push('/');
                assert(s@ =~= seq!['/']);
                s
            },
        };
        let raw_args = match query {
            Some(q) => q.to_owned(),
            None => String::new(),
        };
        let (url, suspicious) = decode::decode_and_normalize(target.as_str());
        let (args, _) = decode::decode_and_normalize(raw_args.as_str());

        let mut flat = String::new();
        let mut header_values: Table<String> = Table::new();
        let ghost all = headers::field_views(fields@);
        let mut i: usize = 0;
        assert(header_values@.map_values(|s: String| s@) =~= joined_headers(all.take(0)));
        assert(flat@ =~= flat_headers(all.take(0)));
        while i < fields.len()
            invariant
                i <= fields@.len(),
                all == headers::field_views(fields@),
                header_values.wf(),
                flat@ == flat_headers(all.take(i as int)),
                header_values@.map_values(|s: String| s@) == joined_headers(all.take(i as int)),
            decreases fields@.len() - i,
        {
            let ghost next = all.take(i as int + 1);
            assert(next.drop_last() =~= all.take(i as int));
            assert(next.last() == (fields@[i as int].0@, fields@[i as int].1@));
            let value = text::lossy_text(fields[i].1.as_slice());
            text::push_chars(&mut flat, fields[i].0.as_str());
            flat.push('=');
            text::push_chars(&mut flat, value.as_str());
            flat.push(' ');
            assert(flat@ =~= flat_headers(next));

            let name = text::to_lower(fields[i].0.as_str());
            let ghost before = header_values@;
            let ghost seen = header_values@.map_values(|s: String| s@);
            let joined = match header_values.get(name.as_str()) {
                Some(old_value) => {
                    assert(seen.contains_key(name@));
                    let mut v = old_value.clone();
                    v.push(',');
                    v.push(' ');
                    text::push_chars(&mut v, value.as_str());
                    assert(v@ =~= seen[name@] + seq![',', ' '] + value@);
                    v
                },
                None => {
                    assert(!seen.contains_key(name@));
                    value
                },
            };
            header_values.insert(name.as_str(), joined);
            assert(header_values@.map_values(|s: String| s@) =~= joined_headers(next));
            i += 1;
        }
        assert(all.take(all.len() as int) =~= all);
        NormalizedRequest {
            method: method.to_owned(),
            url,
            args,
            headers: flat,
            body: body.to_owned(),
            header_values,
            suspicious,
        }
    }

    /// The field `f` of the request.
    pub fn field(&self, f: RuleField) -> (s: &str)
        ensures
            s@ == field_text(self@, f, None),
    {
        match f {
            RuleField::Url => self.url.as_str(),
            RuleField::Args => self.args.as_str(),
            RuleField::Header => self.headers.as_str(),
            RuleField::Body => self.body.as_str(),
            RuleField::Method => self.method.as_str(),
        }
    }

    /// The text that a rule looks at: the one header that it names, without regard to
    /// case, or the field.
    pub fn field_value(&self, f: RuleField, header: Option<&str>) -> (s: &str)
        requires
            self.wf(),
        ensures
            s@ == field_text(self@, f, opt_view(header)),
    {
        match (f, header) {
            (RuleField::Header, Some(name)) => {
                let key = text::to_lower(name);
                let ghost m = self@.header_values;
                match self.header_values.get(key.as_str()) {
                    Some(v) => {
                        assert(m.contains_key(key@));
                        v.as_str()
                    },
                    None => {
                        assert(!m.contains_key(key@));
                        proof {
                            reveal_strlit("");
                        }
                        assert(""@ =~= Seq::<char>::empty());
                        ""
                    },
                }
            },
            _ => self.field(f),
        }
    }
}

/// Points for each dangerous byte of a request.
pub const SUSPICIOUS_BYTE_SCORE: u32 = 5;

/// Whether the rule's pattern is a regular expression, which the prefix `regex:` says.
pub open spec fn is_regex(r: Rule) -> bool {
    "regex:"@.is_prefix_of(r.pattern@)
}

/// The regular expression of a rule that has one.
pub open spec fn regex_of(r: Rule) -> Seq<char> {
    r.pattern@.skip("regex:"@.len() as int)
}

/// Whether the rule's pattern is a literal. An empty pattern is none, and such a rule
/// never matches.
pub open spec fn is_literal(r: Rule) -> bool {
    !is_regex(r) && r.pattern@.len() > 0
}

/// The header that the rule names.
pub open spec fn header_of(r: Rule) -> Option<Seq<char>> {
    match r.header {
        Some(h) => Some(h@),
        None => None,
    }
}

/// The text that a group of literals looks at: a field, and for headers the name in
/// lower case.
pub type GroupKey = (RuleField, Option<Seq<char>>);

/// The group that a literal rule belongs to.
pub open spec fn key_of(r: Rule) -> GroupKey {
    (
        r.field,
        match r.header {
            Some(h) => Some(text::lower(h@)),
            None => None,
        },
    )
}

/// The groups of the literal rules, in the order in which they first occur.
pub open spec fn group_keys(rules: Seq<Rule>) -> Seq<GroupKey>
    decreases rules.len(),
{
    if rules.len() == 0 {
        Seq::empty()
    } else {
        let before = group_keys(rules.drop_last());
        let key = key_of(rules.last());
        if is_literal(rules.last()) && !before.contains(key) {
            before.push(key)
        } else {
            before
        }
    }
}

/// The positions of the literal rules of one group.
pub open spec fn members(rules: Seq<Rule>, key: GroupKey) -> Seq<int>
    decreases rules.len(),
{
    if rules.len() == 0 {
        Seq::empty()
    } else {
        let before = members(rules.drop_last(), key);
        if is_literal(rules.last()) && key_of(rules.last()) == key {
            before.push(rules.len() - 1)
        } else {
            before
        }
    }
}

/// The positions of the rules with a regular expression.
pub open spec fn regex_rules(rules: Seq<Rule>) -> Seq<int>
    decreases rules.len(),
{
    if rules.len() == 0 {
        Seq::empty()
    } else {
        let before = regex_rules(rules.drop_last());
        if is_regex(rules.last()) {
            before.push(rules.len() - 1)
        } else {
            before
        }
    }
}

/// The patterns of the rules at the positions `at`.
pub open spec fn patterns_at(rules: Seq<Rule>, at: Seq<int>) -> Seq<Seq<char>> {
    at.map_values(|i: int| rules[i].pattern@)
}

/// The numbers of a list.
pub open spec fn ints(v: Seq<usize>) -> Seq<int> {
    v.map_values(|i: usize| i as int)
}

/// The rule has no regular expression, or one that compiles.
pub open spec fn rule_compiles(r: Rule) -> bool {
    is_regex(r) ==> matcher::regex_compiles(regex_of(r))
}

/// The literals of the group fit into an automaton.
pub open spec fn group_builds(rules: Seq<Rule>, key: GroupKey) -> bool {
    matcher::automaton_builds(patterns_at(rules, members(rules, key)))
}

/// Some rule looks at the field `f`.
pub open spec fn uses_field(rules: Seq<Rule>, f: RuleField) -> bool {
    exists|i: int| 0 <= i < rules.len() && (#[trigger] rules[i]).field == f
}

proof fn lemma_members_in_range(rules: Seq<Rule>, key: GroupKey)
    ensures
        forall|j: int|
            #![trigger members(rules, key)[j]]
            0 <= j < members(rules, key).len() ==> 0 <= members(rules, key)[j] < rules.len()
                && is_literal(rules[members(rules, key)[j]]) && key_of(
                rules[members(rules, key)[j]],
            ) == key,
    decreases rules.len(),
{
    if rules.len() > 0 {
        lemma_members_in_range(rules.drop_last(), key);
        let before = members(rules.drop_last(), key);
        assert forall|j: int|
            #![trigger members(rules, key)[j]]
            0 <= j < members(rules, key).len() implies 0 <= members(rules, key)[j] < rules.len()
            && is_literal(rules[members(rules, key)[j]]) && key_of(rules[members(rules, key)[j]])
            == key by {
            if j < before.len() {
                assert(members(rules, key)[j] == before[j]);
                assert(rules.drop_last()[before[j]] == rules[before[j]]);
            }
        }
    }
}

proof fn lemma_regex_rules_in_range(rules: Seq<Rule>)
    ensures
        forall|j: int|
            #![trigger regex_rules(rules)[j]]
            0 <= j < regex_rules(rules).len() ==> 0 <= regex_rules(rules)[j] < rules.len()
                && is_regex(rules[regex_rules(rules)[j]]),
    decreases rules.len(),
{
    if rules.len() > 0 {
        lemma_regex_rules_in_range(rules.drop_last());
        let before = regex_rules(rules.drop_last());
        assert forall|j: int|
            #![trigger regex_rules(rules)[j]]
            0 <= j < regex_rules(rules).len() implies 0 <= regex_rules(rules)[j] < rules.len()
            && is_regex(rules[regex_rules(rules)[j]]) by {
            if j < before.len() {
                assert(regex_rules(rules)[j] == before[j]);
                assert(rules.drop_last()[before[j]] == rules[before[j]]);
            }
        }
    }
}

/// Patterns of rules that are all before the last do not depend on it.
proof fn lemma_patterns_prefix(rules: Seq<Rule>, key: GroupKey, n: int)
    requires
        0 <= n <= rules.len(),
    ensures
        patterns_at(rules.take(n), members(rules.take(n), key)) == patterns_at(
            rules,
            members(rules.take(n), key),
        ),
{
    lemma_members_in_range(rules.take(n), key);
    let at = members(rules.take(n), key);
    assert(patterns_at(rules.take(n), at) =~= patterns_at(rules, at)) by {
        assert forall|j: int| 0 <= j < at.len() implies rules.take(n)[at[j]] == rules[at[j]] by {
            assert(0 <= members(rules.take(n), key)[j] < n);
        }
    }
}

/// A group without a key has no members, and no key occurs twice.
proof fn lemma_group_keys(rules: Seq<Rule>)
    ensures
        group_keys(rules).no_duplicates(),
        forall|key: GroupKey|
            !group_keys(rules).contains(key) ==> (#[trigger] members(rules, key)).len() == 0,
        forall|i: int|
            0 <= i < rules.len() && is_literal(#[trigger] rules[i]) ==> group_keys(rules).contains(
                key_of(rules[i]),
            ),
    decreases rules.len(),
{
    if rules.len() > 0 {
        let before = group_keys(rules.drop_last());
        lemma_group_keys(rules.drop_last());
        let key = key_of(rules.last());
        let grows = is_literal(rules.last()) && !before.contains(key);
        if grows {
            assert(group_keys(rules)[before.len() as int] == key);
        }
        assert forall|k: GroupKey| before.contains(k) implies group_keys(rules).contains(k) by {
            let j = before.index_of(k);
            assert(group_keys(rules)[j] == k);
        }
        assert forall|k: GroupKey| !group_keys(rules).contains(k) implies (#[trigger] members(
            rules,
            k,
        )).len() == 0 by {
            assert(members(rules.drop_last(), k).len() == 0);
        }
        assert forall|i: int| 0 <= i < rules.len() && is_literal(#[trigger] rules[i]) implies group_keys(
            rules,
        ).contains(key_of(rules[i])) by {
            if i < rules.len() - 1 {
                assert(rules.drop_last()[i] == rules[i]);
            }
        }
    }
}

/// The positions of the members of a group increase.
proof fn lemma_members_increase(rules: Seq<Rule>, key: GroupKey)
    ensures
        forall|j: int, k: int|
            #![trigger members(rules, key)[j], members(rules, key)[k]]
            0 <= j < k < members(rules, key).len() ==> members(rules, key)[j] < members(
                rules,
                key,
            )[k],
    decreases rules.len(),
{
    if rules.len() > 0 {
        let before = members(rules.drop_last(), key);
        lemma_members_increase(rules.drop_last(), key);
        lemma_members_in_range(rules.drop_last(), key);
        assert forall|j: int, k: int|
            #![trigger members(rules, key)[j], members(rules, key)[k]]
            0 <= j < k < members(rules, key).len() implies members(rules, key)[j] < members(
            rules,
            key,
        )[k] by {
            assert(members(rules, key)[j] == before[j]);
            if k < before.len() {
                assert(members(rules, key)[k] == before[k]);
            }
        }
    }
}

/// The positions of the rules with a regular expression increase.
proof fn lemma_regex_rules_increase(rules: Seq<Rule>)
    ensures
        forall|j: int, k: int|
            #![trigger regex_rules(rules)[j], regex_rules(rules)[k]]
            0 <= j < k < regex_rules(rules).len() ==> regex_rules(rules)[j] < regex_rules(rules)[k],
    decreases rules.len(),
{
    if rules.len() > 0 {
        let before = regex_rules(rules.drop_last());
        lemma_regex_rules_increase(rules.drop_last());
        lemma_regex_rules_in_range(rules.drop_last());
        assert forall|j: int, k: int|
            #![trigger regex_rules(rules)[j], regex_rules(rules)[k]]
            0 <= j < k < regex_rules(rules).len() implies regex_rules(rules)[j] < regex_rules(
            rules,
        )[k] by {
            assert(regex_rules(rules)[j] == before[j]);
            if k < before.len() {
                assert(regex_rules(rules)[k] == before[k]);
            }
        }
    }
}

/// A group has no more members than there are rules.
proof fn lemma_member_count(rules: Seq<Rule>, key: GroupKey)
    ensures
        members(rules, key).len() <= rules.len(),
    decreases rules.len(),
{
    if rules.len() > 0 {
        lemma_member_count(rules.drop_last(), key);
    }
}

/// A literal rule is a member of its group.
proof fn lemma_member(rules: Seq<Rule>, key: GroupKey, i: int)
    requires
        0 <= i < rules.len(),
        is_literal(rules[i]),
        key_of(rules[i]) == key,
    ensures
        members(rules, key).contains(i),
    decreases rules.len(),
{
    let before = members(rules.drop_last(), key);
    if i < rules.len() - 1 {
        assert(rules.drop_last()[i] == rules[i]);
        lemma_member(rules.drop_last(), key, i);
        let j = before.index_of(i);
        assert(members(rules, key)[j] == i);
    } else {
        assert(members(rules, key).last() == i);
    }
}

/// A literal rule looks at the text of its group.
proof fn lemma_key_text(r: Rule, req: RequestView)
    ensures
        field_text(req, key_of(r).0, key_of(r).1) == field_text(req, r.field, header_of(r)),
{
    match r.header {
        Some(h) => {
            assert(text::lower(text::lower(h@)) =~= text::lower(h@));
        },
        None => {},
    }
}

/// The rule is a literal that stands in the text that it looks at.
pub open spec fn literal_occurs(r: Rule, req: RequestView) -> bool {
    is_literal(r) && matcher::occurs(r.pattern@, field_text(req, r.field, header_of(r)))
}

/// Whether a request hits a rule: its regular expression matches the text that the rule
/// looks at, or its literal stands in that text.
pub open spec fn rule_hits(r: Rule, req: RequestView) -> bool {
    if is_regex(r) {
        regex_hits_rule(r, req)
    } else {
        literal_occurs(r, req)
    }
}

/// The positions `at` are those of the rules that a request hits, each once.
pub open spec fn exactly_hit(rules: Seq<Rule>, req: RequestView, at: Seq<int>) -> bool {
    &&& at.no_duplicates()
    &&& forall|k: int|
        0 <= k < at.len() ==> 0 <= #[trigger] at[k] < rules.len() && rule_hits(rules[at[k]], req)
    &&& forall|i: int|
        0 <= i < rules.len() && rule_hits(#[trigger] rules[i], req) ==> at.contains(i)
}

/// The scores of the rules that a request hits, added up.
pub open spec fn rule_score(rules: Seq<Rule>, req: RequestView) -> nat
    decreases rules.len(),
{
    if rules.len() == 0 {
        0
    } else {
        rule_score(rules.drop_last(), req) + if rule_hits(rules.last(), req) {
            rules.last().score as nat
        } else {
            0
        }
    }
}

/// The hits of a request are those of the rules that it hits, each once, and so is
/// their score.
pub open spec fn hits_are_exact(rules: Seq<Rule>, req: RequestView) -> bool {
    &&& exactly_hit(rules, req, hit_rules(rules, req))
    &&& score_sum(hits_on(rules, req)) == rule_score(rules, req)
    &&& tried_in_order(rules, hit_rules(rules, req))
}

/// Among the literal rules, the first of the group `a` stands before every one of the
/// group `b`.
pub open spec fn group_before(rules: Seq<Rule>, a: GroupKey, b: GroupKey) -> bool {
    exists|i: int|
        #![trigger rules[i]]
        0 <= i < rules.len() && is_literal(rules[i]) && key_of(rules[i]) == a && forall|m: int|
            #![trigger rules[m]]
            0 <= m <= i && is_literal(rules[m]) ==> key_of(rules[m]) != b
}

/// The literal rules among those at the positions `at` stand before the regular
/// expressions, group by group, and the regular expressions in the order of the rules.
pub open spec fn tried_in_order(rules: Seq<Rule>, at: Seq<int>) -> bool {
    forall|j: int, k: int|
        #![trigger at[j], at[k]]
        0 <= j < k < at.len() ==> {
            let (a, b) = (rules[at[j]], rules[at[k]]);
            &&& is_regex(a) ==> is_regex(b) && at[j] < at[k]
            &&& !is_regex(b) && key_of(a) != key_of(b) ==> group_before(
                rules,
                key_of(a),
                key_of(b),
            )
        }
}

/// The search for the literals of a group reports those that stand in the text that the
/// group looks at, and no others.
spec fn group_exact(rules: Seq<Rule>, key: GroupKey, req: RequestView) -> bool {
    let at = members(rules, key);
    let hay = field_text(req, key.0, key.1);
    let found = matcher::literal_matches(
        matcher::lowered(patterns_at(rules, at)),
        text::lower(hay),
    );
    matcher::reports(found, patterns_at(rules, at), hay)
}

/// A group of literals that look at the same text, with one automaton for all.
struct LiteralGroup {
    field: RuleField,
    header: Option<String>,
    ac: AhoCorasick,
    rule_idx: Vec<usize>,
}

impl LiteralGroup {
    spec fn key(&self) -> GroupKey {
        (
            self.field,
            match self.header {
                Some(h) => Some(h@),
                None => None,
            },
        )
    }
}

/// A regular expression and the position of its rule.
struct RegexRule {
    rule: usize,
    re: Regex,
}

/// A group while it is being put together.
struct Draft {
    field: RuleField,
    header: Option<String>,
    patterns: Vec<String>,
    rule_idx: Vec<usize>,
}

impl Draft {
    spec fn key(&self) -> GroupKey {
        (
            self.field,
            match self.header {
                Some(h) => Some(h@),
                None => None,
            },
        )
    }
}

/// The compiled rules.
pub struct Engine {
    threshold: u32,
    literals: Vec<LiteralGroup>,
    regexes: Vec<RegexRule>,
    rules: Vec<Rule>,
    needs_body: bool,
    needs_headers: bool,
}

/// What an engine was built from.
pub ghost struct EngineView {
    pub threshold: u32,
    pub rules: Seq<Rule>,
}

impl View for Engine {
    type V = EngineView;

    closed spec fn view(&self) -> EngineView {
        EngineView { threshold: self.threshold, rules: self.rules@ }
    }
}

/// Why a rule set is refused.
#[derive(Debug)]
pub enum EngineError {
    /// The regular expression of the rule at this position does not compile.
    Regex { rule: usize, error: regex::Error },
    /// The literals of the group at this position do not fit into an automaton.
    Literals { group: usize, build_error: BuildError },
}

/// The engine for a rule set, or what stands in its way: the first regular expression
/// that does not compile, or else the first group of literals that does not fit into
/// an automaton.
pub open spec fn engine_built(cfg: Config, r: Result<Engine, EngineError>) -> bool {
    match r {
        Ok(e) => {
            &&& e.wf()
            &&& e@ == (EngineView { threshold: cfg.score_threshold, rules: cfg.rules@ })
            &&& forall|i: int| 0 <= i < cfg.rules@.len() ==> rule_compiles(#[trigger] cfg.rules@[i])
            &&& forall|g: int|
                0 <= g < group_keys(cfg.rules@).len() ==> group_builds(
                    cfg.rules@,
                    #[trigger] group_keys(cfg.rules@)[g],
                )
        },
        Err(EngineError::Regex { rule, error }) => {
            &&& rule < cfg.rules@.len()
            &&& !rule_compiles(cfg.rules@[rule as int])
            &&& forall|i: int| 0 <= i < rule ==> rule_compiles(#[trigger] cfg.rules@[i])
        },
        Err(EngineError::Literals { group, build_error }) => {
            &&& forall|i: int| 0 <= i < cfg.rules@.len() ==> rule_compiles(#[trigger] cfg.rules@[i])
            &&& group < group_keys(cfg.rules@).len()
            &&& !group_builds(cfg.rules@, group_keys(cfg.rules@)[group as int])
            &&& forall|g: int|
                0 <= g < group ==> group_builds(
                    cfg.rules@,
                    #[trigger] group_keys(cfg.rules@)[g],
                )
        },
    }
}

spec fn drafts_match(drafts: Seq<Draft>, rules: Seq<Rule>, n: int) -> bool {
    let keys = group_keys(rules.take(n));
    &&& drafts.len() == keys.len()
    &&& forall|g: int|
        #![trigger drafts[g]]
        0 <= g < drafts.len() ==> {
            &&& drafts[g].key() == keys[g]
            &&& ints(drafts[g].rule_idx@) == members(rules.take(n), keys[g])
            &&& text::views(drafts[g].patterns@) == patterns_at(
                rules,
                members(rules.take(n), keys[g]),
            )
        }
}

fn same_header(a: &Option<String>, b: &Option<String>) -> (r: bool)
    ensures
        r == match (*a, *b) {
            (Some(x), Some(y)) => x@ == y@,
            (None, None) => true,
            _ => false,
        },
{
    match (a, b) {
        (Some(x), Some(y)) => text::same_text(x.as_str(), y.as_str()),
        (None, None) => true,
        _ => false,
    }
}

/// Adds the literal rule at position `n` to the drafts.
fn add_literal(drafts: &mut Vec<Draft>, rules: &Vec<Rule>, n: usize)
    requires
        n < rules@.len(),
        is_literal(rules@[n as int]),
        drafts_match(old(drafts)@, rules@, n as int),
    ensures
        drafts_match(final(drafts)@, rules@, n as int + 1),
{
    let ghost all = rules@;
    let ghost before = all.take(n as int);
    let ghost after = all.take(n as int + 1);
    let ghost keys = group_keys(before);
    assert(after.drop_last() =~= before);
    assert(after.last() == all[n as int]);
    let rule = &rules[n];
    let field = rule.field;
    let header: Option<String> = match &rule.header {
        Some(h) => Some(text::to_lower(h.as_str())),
        None => None,
    };
    let ghost key = key_of(all[n as int]);
    let pattern = rule.pattern.clone();
    proof {
        lemma_group_keys(before);
        assert forall|k: GroupKey| 0 <= n implies patterns_at(all, #[trigger] members(before, k))
            == patterns_at(before, members(before, k)) by {
            lemma_patterns_prefix(all, k, n as int);
        }
    }
    let mut g: usize = 0;
    while g < drafts.len()
        invariant
            g <= drafts@.len(),
            drafts@ == old(drafts)@,
            drafts_match(drafts@, all, n as int),
            keys == group_keys(all.take(n as int)),
            key == (
                field,
                match header {
                    Some(h) => Some(h@),
                    None => None,
                },
            ),
            forall|j: int| 0 <= j < g ==> keys[j] != key,
        ensures
            g <= drafts@.len(),
            drafts@ == old(drafts)@,
            forall|j: int| 0 <= j < g ==> keys[j] != key,
            g < drafts@.len() ==> keys[g as int] == key,
        decreases drafts@.len() - g,
    {
        assert(drafts@[g as int].key() == keys[g as int]);
        if drafts[g].field == field && same_header(&drafts[g].header, &header) {
            assert(keys[g as int] == key);
            break;
        }
        g += 1;
    }
    if g < drafts.len() {
        assert(keys.contains(key));
        assert(group_keys(after) == keys);
        let ghost old_draft = drafts@[g as int];
        assert(old_draft.key() == keys[g as int]);
        let ghost text_added = pattern@;
        let d = &mut drafts[g];
        d.patterns.push(pattern);
        d.rule_idx.push(n);
        let ghost new_draft = drafts@[g as int];
        assert(text::views(new_draft.patterns@) =~= text::views(old_draft.patterns@).push(
            text_added,
        ));
        assert(patterns_at(all, members(before, key).push(n as int)) =~= patterns_at(
            all,
            members(before, key),
        ).push(all[n as int].pattern@));
        assert(drafts@ =~= old(drafts)@.update(g as int, new_draft));
        assert forall|j: int|
            #![trigger drafts@[j]]
            0 <= j < drafts@.len() implies {
            &&& drafts@[j].key() == keys[j]
            &&& ints(drafts@[j].rule_idx@) == members(after, keys[j])
            &&& text::views(drafts@[j].patterns@) == patterns_at(all, members(after, keys[j]))
        } by {
            assert(old(drafts)@[j].key() == keys[j]);
            if j == g {
                assert(ints(new_draft.rule_idx@) =~= members(after, keys[j]));
                assert(text::views(new_draft.patterns@) =~= patterns_at(
                    all,
                    members(after, keys[j]),
                ));
            } else {
                assert(keys[j] != key);
                assert(members(after, keys[j]) == members(before, keys[j]));
            }
        }
    } else {
        assert(!keys.contains(key));
        assert(group_keys(after) == keys.push(key));
        assert(members(before, key).len() == 0);
        assert(members(before, key) =~= Seq::<int>::empty());
        let mut patterns: Vec<String> = Vec::new();
        let mut rule_idx: Vec<usize> = Vec::new();
        patterns.push(pattern);
        rule_idx.push(n);
        let draft = Draft { field, header, patterns, rule_idx };
        assert(ints(draft.rule_idx@) =~= members(after, key));
        assert(text::views(draft.patterns@) =~= patterns_at(all, members(after, key)));
        drafts.push(draft);
        assert forall|j: int|
            #![trigger drafts@[j]]
            0 <= j < drafts@.len() implies {
            &&& drafts@[j].key() == group_keys(after)[j]
            &&& ints(drafts@[j].rule_idx@) == members(after, group_keys(after)[j])
            &&& text::views(drafts@[j].patterns@) == patterns_at(
                all,
                members(after, group_keys(after)[j]),
            )
        } by {
            if j < keys.len() {
                assert(drafts@[j] == old(drafts)@[j]);
                assert(keys[j] != key);
                assert(members(after, keys[j]) == members(before, keys[j]));
            }
        }
    }
}

spec fn regexes_match(regexes: Seq<RegexRule>, rules: Seq<Rule>, n: int) -> bool {
    let at = regex_rules(rules.take(n));
    &&& regexes.len() == at.len()
    &&& forall|k: int|
        #![trigger regexes[k]]
        0 <= k < regexes.len() ==> regexes[k].rule == at[k] && matcher::regex_text(regexes[k].re)
            == regex_of(rules[at[k]])
}

spec fn groups_match(groups: Seq<LiteralGroup>, rules: Seq<Rule>, n: int) -> bool {
    let keys = group_keys(rules);
    &&& groups.len() == n <= keys.len()
    &&& forall|g: int|
        #![trigger groups[g]]
        0 <= g < n ==> {
            &&& groups[g].key() == keys[g]
            &&& ints(groups[g].rule_idx@) == members(rules, keys[g])
            &&& matcher::automaton_patterns(groups[g].ac) == patterns_at(
                rules,
                members(rules, keys[g]),
            )
            &&& matcher::automaton_overlaps(groups[g].ac)
        }
}

impl Engine {
    /// The compiled matchers are those of the rules.
    pub closed spec fn wf(&self) -> bool {
        &&& groups_match(self.literals@, self.rules@, group_keys(self.rules@).len() as int)
        &&& regexes_match(self.regexes@, self.rules@, self.rules@.len() as int)
        &&& self.needs_body == uses_field(self.rules@, RuleField::Body)
        &&& self.needs_headers == uses_field(self.rules@, RuleField::Header)
    }

    /// Compiles a rule set. It is refused where a regular expression does not compile, and
    /// else where the literals of a group do not fit into an automaton; the error names
    /// the first such rule or group.
    pub fn new(cfg: Config) -> (r: Result<Self, EngineError>)
        ensures
            engine_built(cfg, r),
    {
        let rules = cfg.rules;
        let ghost all = rules@;
        let mut regexes: Vec<RegexRule> = Vec::new();
        let mut drafts: Vec<Draft> = Vec::new();
        let mut needs_body = false;
        let mut needs_headers = false;
        let mut n: usize = 0;
        while n < rules.len()
            invariant
                n <= rules@.len(),
                all == rules@,
                all == cfg.rules@,
                forall|i: int| 0 <= i < n ==> rule_compiles(#[trigger] all[i]),
                drafts_match(drafts@, all, n as int),
                regexes_match(regexes@, all, n as int),
                needs_body == uses_field(all.take(n as int), RuleField::Body),
                needs_headers == uses_field(all.take(n as int), RuleField::Header),
            decreases rules@.len() - n,
        {
            let ghost before = all.take(n as int);
            let ghost after = all.take(n as int + 1);
            assert(after.drop_last() =~= before);
            assert(after.last() == all[n as int]);
            proof {
                assert forall|f: RuleField| #[trigger] uses_field(after, f) == (uses_field(before, f)
                    || all[n as int].field == f) by {
                    if uses_field(before, f) {
                        let i = choose|i: int| 0 <= i < before.len() && (#[trigger] before[i]).field == f;
                        assert(after[i] == before[i]);
                    }
                    if uses_field(after, f) && all[n as int].field != f {
                        let i = choose|i: int| 0 <= i < after.len() && (#[trigger] after[i]).field == f;
                        assert(before[i] == after[i]);
                    }
                    assert(after[n as int] == all[n as int]);
                }
            }
            if rules[n].field == RuleField::Body {
                needs_body = true;
            }
            if rules[n].field == RuleField::Header {
                needs_headers = true;
            }
            match text::strip_prefix(rules[n].pattern.as_str(), "regex:") {
                Some(expression) => {
                    match matcher::compile_regex(expression.as_str()) {
                        Ok(re) => {
                            let ghost old_regexes = regexes@;
                            regexes.push(RegexRule { rule: n, re });
                            assert forall|k: int|
                                #![trigger regexes@[k]]
                                0 <= k < regexes@.len() implies regexes@[k].rule == regex_rules(
                                after,
                            )[k] && matcher::regex_text(regexes@[k].re) == regex_of(
                                all[regex_rules(after)[k]],
                            ) by {
                                if k < old_regexes.len() {
                                    assert(regexes@[k] == old_regexes[k]);
                                }
                            }
                        },
                        Err(error) => {
                            return Err(EngineError::Regex { rule: n, error });
                        },
                    }
                    assert(group_keys(after) == group_keys(before));
                    assert forall|k: GroupKey| #[trigger] members(after, k) == members(before, k) by {}
                    assert(drafts_match(drafts@, all, n as int + 1));
                },
                None => {
                    assert(regex_rules(after) == regex_rules(before));
                    if !rules[n].pattern.as_str().is_empty() {
                        add_literal(&mut drafts, &rules, n);
                    } else {
                        assert(group_keys(after) == group_keys(before));
                        assert forall|k: GroupKey| #[trigger] members(after, k) == members(before, k) by {}
                        assert(drafts_match(drafts@, all, n as int + 1));
                    }
                },
            }
            n += 1;
        }
        assert(all.take(all.len() as int) =~= all);

        let ghost keys = group_keys(all);
        let ghost made = drafts@;
        let mut literals: Vec<LiteralGroup> = Vec::new();
        for draft in it: drafts
            invariant
                it.seq() == made,
                keys == group_keys(all),
                all == rules@,
                all == cfg.rules@,
                all.take(all.len() as int) == all,
                drafts_match(made, all, all.len() as int),
                groups_match(literals@, all, it.index() as int),
                forall|i: int| 0 <= i < all.len() ==> rule_compiles(#[trigger] all[i]),
                forall|g: int| 0 <= g < it.index() ==> group_builds(all, #[trigger] keys[g]),
        {
            let ghost g = it.index() as int;
            assert(draft == made[g]);
            assert(made[g].key() == keys[g]);
            match matcher::build_automaton(&draft.patterns) {
                Ok(ac) => {
                    let ghost old_literals = literals@;
                    literals.push(
                        LiteralGroup {
                            field: draft.field,
                            header: draft.header,
                            ac,
                            rule_idx: draft.rule_idx,
                        },
                    );
                    assert forall|j: int|
                        #![trigger literals@[j]]
                        0 <= j < literals@.len() implies {
                        &&& literals@[j].key() == keys[j]
                        &&& ints(literals@[j].rule_idx@) == members(all, keys[j])
                        &&& matcher::automaton_patterns(literals@[j].ac) == patterns_at(
                            all,
                            members(all, keys[j]),
                        )
                        &&& matcher::automaton_overlaps(literals@[j].ac)
                    } by {
                        if j < g {
                            assert(literals@[j] == old_literals[j]);
                        }
                    }
                },
                Err(build_error) => {
                    let group = literals.len();
                    assert(group == g);
                    return Err(EngineError::Literals { group, build_error });
                },
            }
        }
        Ok(
            Engine {
                threshold: cfg.score_threshold,
                literals,
                regexes,
                rules,
                needs_body,
                needs_headers,
            },
        )
    }

    /// Whether any rule looks at the body. Where none does, the body can be passed on
    /// unread.
    pub fn needs_body(&self) -> (r: bool)
        requires
            self.wf(),
        ensures
            r == uses_field(self@.rules, RuleField::Body),
    {
        self.needs_body
    }

    /// Whether any rule looks at the headers.
    pub fn needs_headers(&self) -> (r: bool)
        requires
            self.wf(),
        ensures
            r == uses_field(self@.rules, RuleField::Header),
    {
        self.needs_headers
    }
}

/// One rule that a request hit.
#[derive(Debug, Clone)]
pub struct Hit {
    pub rule_id: u32,
    pub category: String,
    pub score: u32,
}

/// The contents of a hit.
#[verifier::ext_equal]
pub ghost struct HitView {
    pub rule_id: u32,
    pub category: Seq<char>,
    pub score: u32,
}

impl View for Hit {
    type V = HitView;

    open spec fn view(&self) -> HitView {
        HitView { rule_id: self.rule_id, category: self.category@, score: self.score }
    }
}

/// The contents of a list of hits.
pub open spec fn hit_views(v: Seq<Hit>) -> Seq<HitView> {
    v.map_values(|h: Hit| h@)
}

/// What the engine makes of a request. A block carries every rule that was hit, in the
/// order in which the rules were tried.
#[derive(Debug)]
pub enum Verdict {
    Allow,
    Block { hits: Vec<Hit>, score: u32 },
}

/// The contents of a verdict.
#[verifier::ext_equal]
pub ghost enum VerdictView {
    Allow,
    Block { hits: Seq<HitView>, score: u32 },
}

impl View for Verdict {
    type V = VerdictView;

    open spec fn view(&self) -> VerdictView {
        match *self {
            Verdict::Allow => VerdictView::Allow,
            Verdict::Block { hits, score } => VerdictView::Block {
                hits: hit_views(hits@),
                score,
            },
        }
    }
}

/// The elements of a list in the order of their first occurrence, each once.
pub open spec fn first_seen(ids: Seq<usize>) -> Seq<usize>
    decreases ids.len(),
{
    if ids.len() == 0 {
        ids
    } else {
        let before = first_seen(ids.drop_last());
        if before.contains(ids.last()) {
            before
        } else {
            before.push(ids.last())
        }
    }
}

/// The positions of the rules of one group that a request hits, each once.
pub open spec fn group_hits(rules: Seq<Rule>, key: GroupKey, req: RequestView) -> Seq<int> {
    let at = members(rules, key);
    let found = matcher::literal_matches(
        matcher::lowered(patterns_at(rules, at)),
        text::lower(field_text(req, key.0, key.1)),
    );
    first_seen(found).map_values(|p: usize| at[p as int])
}

/// The positions of the literal rules of the first `n` groups that a request hits.
pub open spec fn literal_hits(rules: Seq<Rule>, req: RequestView, n: nat) -> Seq<int>
    decreases n,
{
    if n == 0 {
        Seq::empty()
    } else {
        literal_hits(rules, req, (n - 1) as nat) + group_hits(
            rules,
            group_keys(rules)[n - 1],
            req,
        )
    }
}

/// Whether a request hits a rule with a regular expression.
pub open spec fn regex_hits_rule(r: Rule, req: RequestView) -> bool {
    matcher::regex_matches(regex_of(r), field_text(req, r.field, header_of(r)))
}

/// Those of the rules at the positions `at` whose regular expression a request hits.
pub open spec fn regex_hits(rules: Seq<Rule>, req: RequestView, at: Seq<int>) -> Seq<int>
    decreases at.len(),
{
    if at.len() == 0 {
        at
    } else {
        let before = regex_hits(rules, req, at.drop_last());
        if regex_hits_rule(rules[at.last()], req) {
            before.push(at.last())
        } else {
            before
        }
    }
}

/// The positions of all rules that a request hits: the literals group by group, then
/// the regular expressions.
pub open spec fn hit_rules(rules: Seq<Rule>, req: RequestView) -> Seq<int> {
    literal_hits(rules, req, group_keys(rules).len()) + regex_hits(rules, req, regex_rules(rules))
}

/// The hit that a rule makes.
pub open spec fn hit_of(r: Rule) -> HitView {
    HitView { rule_id: r.id, category: r.category@, score: r.score }
}

/// The hits of a request.
pub open spec fn hits_on(rules: Seq<Rule>, req: RequestView) -> Seq<HitView> {
    hit_rules(rules, req).map_values(|i: int| hit_of(rules[i]))
}

/// The sum of the scores of some hits.
pub open spec fn score_sum(hits: Seq<HitView>) -> nat
    decreases hits.len(),
{
    if hits.len() == 0 {
        0
    } else {
        score_sum(hits.drop_last()) + hits.last().score as nat
    }
}

/// The score of a request: its dangerous bytes and its hits.
pub open spec fn score_of(suspicious: u32, hits: Seq<HitView>) -> nat {
    suspicious as nat * 5 + score_sum(hits)
}

/// The verdict on a request with these hits. A request that is blocked for its
/// dangerous bytes alone gets one hit, of the category `suspicious`. A score beyond the
/// largest `u32` is told as that number.
pub open spec fn verdict_on(threshold: u32, suspicious: u32, hits: Seq<HitView>) -> VerdictView {
    let score = score_of(suspicious, hits);
    if score < threshold {
        VerdictView::Allow
    } else if hits.len() == 0 {
        VerdictView::Block {
            hits: seq![
                HitView { rule_id: 0, category: "suspicious"@, score: decode::capped(score) },
            ],
            score: decode::capped(score),
        }
    } else {
        VerdictView::Block { hits, score: decode::capped(score) }
    }
}

/// The verdict of an engine on a request.
pub open spec fn verdict_of(e: EngineView, req: RequestView) -> VerdictView {
    verdict_on(e.threshold, req.suspicious, hits_on(e.rules, req))
}

proof fn lemma_first_seen(ids: Seq<usize>)
    ensures
        first_seen(ids).no_duplicates(),
        forall|x: usize| first_seen(ids).contains(x) <==> #[trigger] ids.contains(x),
    decreases ids.len(),
{
    if ids.len() > 0 {
        let before = first_seen(ids.drop_last());
        lemma_first_seen(ids.drop_last());
        assert forall|x: usize| first_seen(ids).contains(x) <==> #[trigger] ids.contains(x) by {
            if ids.contains(x) {
                let i = ids.index_of(x);
                if i < ids.len() - 1 {
                    assert(ids.drop_last()[i] == x);
                    assert(ids.drop_last().contains(x));
                    let j = before.index_of(x);
                    assert(first_seen(ids)[j] == x);
                } else if !before.contains(x) {
                    assert(first_seen(ids).last() == x);
                } else {
                    let j = before.index_of(x);
                    assert(first_seen(ids)[j] == x);
                }
            }
            if first_seen(ids).contains(x) {
                let j = first_seen(ids).index_of(x);
                if j < before.len() {
                    assert(before[j] == x);
                    assert(before.contains(x));
                    assert(ids.drop_last().contains(x));
                    let i = ids.drop_last().index_of(x);
                    assert(ids[i] == x);
                } else {
                    assert(ids.last() == x);
                }
            }
        }
    }
}

/// The ids of a list, all below `n`, in the order of their first occurrence, each once.
pub fn first_ids(ids: &Vec<usize>, n: usize) -> (out: Vec<usize>)
    requires
        forall|i: int| 0 <= i < ids@.len() ==> #[trigger] ids@[i] < n,
    ensures
        out@ == first_seen(ids@),
{
    let ghost found = ids@;
    let mut seen: Vec<bool> = vec![false; n];
    let mut out: Vec<usize> = Vec::new();
    let mut k: usize = 0;
    assert(found.take(0) =~= Seq::<usize>::empty());
    while k < ids.len()
        invariant
            k <= ids@.len(),
            found == ids@,
            seen@.len() == n,
            forall|i: int| 0 <= i < ids@.len() ==> #[trigger] ids@[i] < n,
            out@ == first_seen(found.take(k as int)),
            forall|p: usize| p < n ==> seen@[p as int] == #[trigger] out@.contains(p),
        decreases ids@.len() - k,
    {
        let ghost next = found.take(k as int + 1);
        assert(next.drop_last() =~= found.take(k as int));
        let id = ids[k];
        assert(next.last() == id);
        if !seen[id] {
            let ghost before = out@;
            assert(!before.contains(id));
            out.push(id);
            seen.set(id, true);
            assert forall|p: usize| p < n implies seen@[p as int] == #[trigger] out@.contains(p) by {
                if p == id {
                    assert(out@[before.len() as int] == id);
                } else {
                    if before.contains(p) {
                        let j = before.index_of(p);
                        assert(out@[j] == p);
                    }
                    if out@.contains(p) {
                        let j = out@.index_of(p);
                        assert(before[j] == p);
                    }
                }
            }
        } else {
            assert(out@.contains(id));
        }
        k += 1;
    }
    assert(found.take(found.len() as int) =~= found);
    out
}

/// The score of a request, up to the largest `u32`.
pub fn total_score(suspicious: u32, hits: &Vec<Hit>) -> (total: u32)
    ensures
        total == decode::capped(score_of(suspicious, hit_views(hits@))),
{
    let ghost all = hit_views(hits@);
    assert(suspicious * SUSPICIOUS_BYTE_SCORE == suspicious * 5) by (nonlinear_arith)
        requires
            SUSPICIOUS_BYTE_SCORE == 5,
    ;
    let mut total: u32 = match suspicious.checked_mul(SUSPICIOUS_BYTE_SCORE) {
        Some(n) => n,
        None => u32::MAX,
    };
    let mut i: usize = 0;
    assert(all.take(0) =~= Seq::<HitView>::empty());
    while i < hits.len()
        invariant
            i <= hits@.len(),
            all == hit_views(hits@),
            total == decode::capped(score_of(suspicious, all.take(i as int))),
        decreases hits@.len() - i,
    {
        assert(all.take(i as int + 1).drop_last() =~= all.take(i as int));
        assert(all.take(i as int + 1).last() == hits@[i as int]@);
        total = total.saturating_add(hits[i].score);
        i += 1;
    }
    assert(all.take(all.len() as int) =~= all);
    total
}

/// The verdict on a request with these hits.
pub fn judge(threshold: u32, suspicious: u32, hits: Vec<Hit>) -> (v: Verdict)
    ensures
        v@ == verdict_on(threshold, suspicious, hit_views(hits@)),
{
    let score = total_score(suspicious, &hits);
    if score < threshold {
        return Verdict::Allow;
    }
    let mut hits = hits;
    if hits.len() == 0 {
        let ghost none = hits@;
        hits.push(Hit { rule_id: 0, category: "suspicious".to_owned(), score });
        assert(hit_views(hits@) =~= seq![
            HitView { rule_id: 0, category: "suspicious"@, score: score },
        ]);
    }
    Verdict::Block { hits, score }
}

/// The hits of a group are the literals of that group that stand in the text that they
/// look at, each once.
proof fn lemma_group_hits(rules: Seq<Rule>, key: GroupKey, req: RequestView)
    requires
        rules.len() <= usize::MAX,
        group_exact(rules, key, req),
    ensures
        group_hits(rules, key, req).no_duplicates(),
        forall|i: int| #[trigger]
            group_hits(rules, key, req).contains(i) <==> 0 <= i < rules.len() && key_of(rules[i])
                == key && literal_occurs(rules[i], req),
{
    let at = members(rules, key);
    let hay = field_text(req, key.0, key.1);
    let found = matcher::literal_matches(
        matcher::lowered(patterns_at(rules, at)),
        text::lower(hay),
    );
    let firsts = first_seen(found);
    let hits = group_hits(rules, key, req);
    lemma_first_seen(found);
    lemma_members_in_range(rules, key);
    lemma_members_increase(rules, key);
    assert forall|j: int| 0 <= j < firsts.len() implies (#[trigger] firsts[j]) < at.len()
        && matcher::occurs(rules[at[firsts[j] as int]].pattern@, hay) by {
        assert(firsts.contains(firsts[j]));
        assert(found.contains(firsts[j]));
    }
    assert forall|j: int, k: int|
        0 <= j < hits.len() && 0 <= k < hits.len() && j != k implies hits[j] != hits[k] by {
        let (p, q) = (firsts[j], firsts[k]);
        assert(p != q);
        if p < q {
            assert(at[p as int] < at[q as int]);
        } else {
            assert(at[q as int] < at[p as int]);
        }
    }
    assert forall|i: int| #[trigger] hits.contains(i) <==> 0 <= i < rules.len() && key_of(rules[i])
        == key && literal_occurs(rules[i], req) by {
        if hits.contains(i) {
            let j = hits.index_of(i);
            assert(at[firsts[j] as int] == i);
            lemma_key_text(rules[i], req);
        }
        if 0 <= i < rules.len() && key_of(rules[i]) == key && literal_occurs(rules[i], req) {
            lemma_member(rules, key, i);
            lemma_key_text(rules[i], req);
            let p = at.index_of(i);
            lemma_member_count(rules, key);
            assert(found.contains(p as usize));
            assert(firsts.contains(p as usize));
            let j = firsts.index_of(p as usize);
            assert(hits[j] == i);
        }
    }
}

/// The hits of the first `n` groups are the literals of those groups that stand in the
/// text that they look at, each once.
proof fn lemma_literal_hits(rules: Seq<Rule>, req: RequestView, n: nat)
    requires
        rules.len() <= usize::MAX,
        n <= group_keys(rules).len(),
        forall|h: int|
            0 <= h < group_keys(rules).len() ==> group_exact(
                rules,
                #[trigger] group_keys(rules)[h],
                req,
            ),
    ensures
        literal_hits(rules, req, n).no_duplicates(),
        forall|i: int| #[trigger]
            literal_hits(rules, req, n).contains(i) <==> 0 <= i < rules.len() && literal_occurs(
                rules[i],
                req,
            ) && group_keys(rules).take(n as int).contains(key_of(rules[i])),
    decreases n,
{
    let keys = group_keys(rules);
    let all = literal_hits(rules, req, n);
    if n == 0 {
        assert(keys.take(0).len() == 0);
    } else {
        let before = literal_hits(rules, req, (n - 1) as nat);
        let key = keys[n - 1];
        let added = group_hits(rules, key, req);
        lemma_literal_hits(rules, req, (n - 1) as nat);
        assert(group_exact(rules, keys[n - 1], req));
        lemma_group_hits(rules, key, req);
        lemma_group_keys(rules);
        let front = keys.take(n - 1);
        assert(keys.take(n as int) =~= front.push(key));
        assert(!front.contains(key)) by {
            if front.contains(key) {
                let h = front.index_of(key);
                assert(keys[h] == keys[n - 1]);
            }
        }
        lemma_concat_contains(before, added);
        lemma_push_contains(front, key);
        assert forall|j: int, k: int|
            0 <= j < all.len() && 0 <= k < all.len() && j != k implies all[j] != all[k] by {
            let low = if j < k { j } else { k };
            let high = if j < k { k } else { j };
            if low < before.len() && high >= before.len() {
                assert(before.contains(before[low]));
                assert(added.contains(added[high - before.len()]));
            }
        }
    }
}

proof fn lemma_concat_contains(a: Seq<int>, b: Seq<int>)
    ensures
        forall|x: int| #[trigger] (a + b).contains(x) <==> a.contains(x) || b.contains(x),
{
    assert forall|x: int| #[trigger] (a + b).contains(x) <==> a.contains(x) || b.contains(x) by {
        if a.contains(x) {
            let i = a.index_of(x);
            assert((a + b)[i] == x);
        }
        if b.contains(x) {
            let i = b.index_of(x);
            assert((a + b)[a.len() + i] == x);
        }
        if (a + b).contains(x) {
            let i = (a + b).index_of(x);
            if i < a.len() {
                assert(a[i] == x);
            } else {
                assert(b[i - a.len()] == x);
            }
        }
    }
}

proof fn lemma_push_contains<T>(a: Seq<T>, last: T)
    ensures
        forall|x: T| #[trigger] a.push(last).contains(x) <==> a.contains(x) || x == last,
{
    assert forall|x: T| #[trigger] a.push(last).contains(x) <==> a.contains(x) || x == last by {
        if a.contains(x) {
            let i = a.index_of(x);
            assert(a.push(last)[i] == x);
        }
        assert(a.push(last)[a.len() as int] == last);
        if a.push(last).contains(x) {
            let i = a.push(last).index_of(x);
            if i < a.len() {
                assert(a[i] == x);
            }
        }
    }
}

/// The hits of the regular expressions at the positions `at` are those that match.
proof fn lemma_regex_hits(rules: Seq<Rule>, req: RequestView, at: Seq<int>)
    requires
        at.no_duplicates(),
    ensures
        regex_hits(rules, req, at).no_duplicates(),
        forall|i: int| #[trigger]
            regex_hits(rules, req, at).contains(i) <==> at.contains(i) && regex_hits_rule(
                rules[i],
                req,
            ),
    decreases at.len(),
{
    if at.len() > 0 {
        let front = at.drop_last();
        let before = regex_hits(rules, req, front);
        lemma_regex_hits(rules, req, front);
        assert(at =~= front.push(at.last()));
        lemma_push_contains(front, at.last());
        lemma_push_contains(before, at.last());
        assert(!front.contains(at.last())) by {
            if front.contains(at.last()) {
                let i = front.index_of(at.last());
                assert(at[i] == at[at.len() - 1]);
            }
        }
        let all = regex_hits(rules, req, at);
        assert forall|j: int, k: int|
            0 <= j < all.len() && 0 <= k < all.len() && j != k implies all[j] != all[k] by {
            if before.len() < all.len() {
                if j < before.len() {
                    assert(before.contains(before[j]));
                }
                if k < before.len() {
                    assert(before.contains(before[k]));
                }
            }
        }
    }
}

/// Every rule with a regular expression is found among them.
proof fn lemma_regex_rules_hold(rules: Seq<Rule>, i: int)
    requires
        0 <= i < rules.len(),
        is_regex(rules[i]),
    ensures
        regex_rules(rules).contains(i),
    decreases rules.len(),
{
    let front = rules.drop_last();
    if i < front.len() {
        assert(front[i] == rules[i]);
        lemma_regex_rules_hold(front, i);
        let j = regex_rules(front).index_of(i);
        assert(regex_rules(rules)[j] == i);
    } else {
        assert(regex_rules(rules).last() == i);
    }
}

/// Removing one hit takes its score off the sum.
proof fn lemma_score_sum_remove(hits: Seq<HitView>, k: int)
    requires
        0 <= k < hits.len(),
    ensures
        score_sum(hits) == score_sum(hits.remove(k)) + hits[k].score,
    decreases hits.len(),
{
    if k == hits.len() - 1 {
        assert(hits.remove(k) =~= hits.drop_last());
    } else {
        lemma_score_sum_remove(hits.drop_last(), k);
        assert(hits.remove(k).drop_last() =~= hits.drop_last().remove(k));
        assert(hits.remove(k).last() == hits.last());
    }
}

/// The scores of the rules that are hit add up to the same sum in any order.
proof fn lemma_rule_score(rules: Seq<Rule>, req: RequestView, at: Seq<int>)
    requires
        exactly_hit(rules, req, at),
    ensures
        score_sum(at.map_values(|i: int| hit_of(rules[i]))) == rule_score(rules, req),
    decreases rules.len(),
{
    let hits = at.map_values(|i: int| hit_of(rules[i]));
    if rules.len() == 0 {
        if at.len() > 0 {
            assert(0 <= at[0] < rules.len());
        }
    } else {
        let front = rules.drop_last();
        let last = rules.len() - 1;
        let rest = if rule_hits(rules.last(), req) {
            at.remove(at.index_of(last))
        } else {
            at
        };
        if rule_hits(rules.last(), req) {
            assert(rules[last] == rules.last());
            assert(at.contains(last));
            let k = at.index_of(last);
            lemma_score_sum_remove(hits, k);
            assert(hits.remove(k) =~= rest.map_values(|i: int| hit_of(rules[i])));
            assert forall|j: int| 0 <= j < rest.len() implies 0 <= #[trigger] rest[j] < last
                && rule_hits(rules[rest[j]], req) by {
                let m = if j < k { j } else { j + 1 };
                assert(rest[j] == at[m]);
                assert(at[m] != at[k]);
            }
            assert forall|i: int| 0 <= i < last && rule_hits(#[trigger] rules[i], req) implies
                rest.contains(i) by {
                let m = at.index_of(i);
                if m < k {
                    assert(rest[m] == i);
                } else {
                    assert(rest[m - 1] == i);
                }
            }
            assert(rest.no_duplicates());
        } else {
            assert forall|j: int| 0 <= j < rest.len() implies 0 <= #[trigger] rest[j] < last
                && rule_hits(rules[rest[j]], req) by {
                assert(rules[at[j]] != rules[last] || !rule_hits(rules[at[j]], req));
            }
        }
        assert forall|j: int| 0 <= j < rest.len() implies 0 <= #[trigger] rest[j] < front.len()
            && rule_hits(front[rest[j]], req) by {
            assert(front[rest[j]] == rules[rest[j]]);
        }
        assert forall|i: int| 0 <= i < front.len() && rule_hits(#[trigger] front[i], req) implies
            rest.contains(i) by {
            assert(front[i] == rules[i]);
        }
        assert(exactly_hit(front, req, rest));
        lemma_rule_score(front, req, rest);
        assert(rest.map_values(|i: int| hit_of(rules[i])) =~= rest.map_values(
            |i: int| hit_of(front[i]),
        ));
    }
}

/// Where the search for literals is exact, so are the hits.
proof fn lemma_hits_are_exact(rules: Seq<Rule>, req: RequestView)
    requires
        rules.len() <= usize::MAX,
        forall|h: int|
            0 <= h < group_keys(rules).len() ==> group_exact(
                rules,
                #[trigger] group_keys(rules)[h],
                req,
            ),
    ensures
        hits_are_exact(rules, req),
{
    let keys = group_keys(rules);
    let literal = literal_hits(rules, req, keys.len());
    let at = regex_rules(rules);
    let regex = regex_hits(rules, req, at);
    let all = hit_rules(rules, req);
    lemma_literal_hits(rules, req, keys.len());
    lemma_group_keys(rules);
    assert(keys.take(keys.len() as int) =~= keys);
    lemma_regex_rules_increase(rules);
    lemma_regex_rules_in_range(rules);
    assert(at.no_duplicates());
    lemma_regex_hits(rules, req, at);
    lemma_concat_contains(literal, regex);
    assert forall|i: int| regex.contains(i) implies 0 <= i < rules.len() && is_regex(rules[i]) by {
        let j = at.index_of(i);
        assert(0 <= at[j] < rules.len());
    }
    assert forall|j: int, k: int|
        0 <= j < all.len() && 0 <= k < all.len() && j != k implies all[j] != all[k] by {
        let low = if j < k { j } else { k };
        let high = if j < k { k } else { j };
        if low < literal.len() && high >= literal.len() {
            assert(literal.contains(literal[low]));
            assert(regex.contains(regex[high - literal.len()]));
        }
    }
    assert forall|k: int| 0 <= k < all.len() implies 0 <= #[trigger] all[k] < rules.len()
        && rule_hits(rules[all[k]], req) by {
        assert(all.contains(all[k]));
    }
    assert forall|i: int| 0 <= i < rules.len() && rule_hits(#[trigger] rules[i], req) implies
        all.contains(i) by {
        if is_regex(rules[i]) {
            lemma_regex_rules_hold(rules, i);
        } else {
            assert(keys.contains(key_of(rules[i])));
            assert(literal.contains(i));
        }
    }
    lemma_rule_score(rules, req, all);
    lemma_tried_in_order(rules, req);
}

proof fn lemma_key_order(rules: Seq<Rule>, g: int, h: int)
    requires
        0 <= g < h < group_keys(rules).len(),
    ensures
        group_before(rules, group_keys(rules)[g], group_keys(rules)[h]),
    decreases rules.len(),
{
    let front = rules.drop_last();
    let keys = group_keys(rules);
    let before = group_keys(front);
    lemma_group_keys(front);
    let i = if h < before.len() {
        lemma_key_order(front, g, h);
        choose|i: int|
            #![trigger front[i]]
            0 <= i < front.len() && is_literal(front[i]) && key_of(front[i]) == keys[g]
                && forall|m: int|
                #![trigger front[m]]
                0 <= m <= i && is_literal(front[m]) ==> key_of(front[m]) != keys[h]
    } else {
        lemma_key_has_rule(front, g);
        choose|i: int|
            #![trigger front[i]]
            0 <= i < front.len() && is_literal(front[i]) && key_of(front[i]) == before[g]
    };
    assert(rules[i] == front[i]);
    assert forall|m: int|
        #![trigger rules[m]]
        0 <= m <= i && is_literal(rules[m]) implies key_of(rules[m]) != keys[h] by {
        assert(front[m] == rules[m]);
        if h >= before.len() {
            assert(before.contains(key_of(front[m])));
        }
    }
}

proof fn lemma_literal_order(rules: Seq<Rule>, req: RequestView, n: nat)
    requires
        rules.len() <= usize::MAX,
        n <= group_keys(rules).len(),
        forall|h: int|
            0 <= h < group_keys(rules).len() ==> group_exact(
                rules,
                #[trigger] group_keys(rules)[h],
                req,
            ),
    ensures
        forall|k: int|
            #![trigger literal_hits(rules, req, n)[k]]
            0 <= k < literal_hits(rules, req, n).len() ==> {
                let i = literal_hits(rules, req, n)[k];
                &&& 0 <= i < rules.len()
                &&& is_literal(rules[i])
                &&& group_keys(rules).contains(key_of(rules[i]))
                &&& group_keys(rules).index_of(key_of(rules[i])) < n
            },
        forall|j: int, k: int|
            #![trigger literal_hits(rules, req, n)[j], literal_hits(rules, req, n)[k]]
            0 <= j < k < literal_hits(rules, req, n).len() ==> group_keys(rules).index_of(
                key_of(rules[literal_hits(rules, req, n)[j]]),
            ) <= group_keys(rules).index_of(key_of(rules[literal_hits(rules, req, n)[k]])),
    decreases n,
{
    if n > 0 {
        let keys = group_keys(rules);
        let before = literal_hits(rules, req, (n - 1) as nat);
        let added = group_hits(rules, keys[n - 1], req);
        let all = literal_hits(rules, req, n);
        lemma_literal_order(rules, req, (n - 1) as nat);
        assert(group_exact(rules, keys[n - 1], req));
        lemma_group_hits(rules, keys[n - 1], req);
        lemma_group_keys(rules);
        assert forall|k: int|
            #![trigger all[k]]
            0 <= k < all.len() implies {
            let i = all[k];
            &&& 0 <= i < rules.len()
            &&& is_literal(rules[i])
            &&& keys.contains(key_of(rules[i]))
            &&& keys.index_of(key_of(rules[i])) < n
            &&& k >= before.len() ==> keys.index_of(key_of(rules[i])) == n - 1
        } by {
            if k < before.len() {
                assert(all[k] == before[k]);
            } else {
                assert(added.contains(added[k - before.len()]));
                assert(key_of(rules[all[k]]) == keys[n - 1]);
                assert(keys.contains(keys[n - 1]));
            }
        }
        assert forall|j: int, k: int|
            #![trigger all[j], all[k]]
            0 <= j < k < all.len() implies keys.index_of(key_of(rules[all[j]])) <= keys.index_of(
            key_of(rules[all[k]]),
        ) by {
            if k < before.len() {
                assert(all[j] == before[j] && all[k] == before[k]);
            }
        }
    }
}

proof fn lemma_regex_order(rules: Seq<Rule>, req: RequestView, at: Seq<int>)
    requires
        forall|j: int, k: int|
            #![trigger at[j], at[k]]
            0 <= j < k < at.len() ==> at[j] < at[k],
    ensures
        forall|k: int|
            #![trigger regex_hits(rules, req, at)[k]]
            0 <= k < regex_hits(rules, req, at).len() ==> at.contains(
                regex_hits(rules, req, at)[k],
            ),
        forall|j: int, k: int|
            #![trigger regex_hits(rules, req, at)[j], regex_hits(rules, req, at)[k]]
            0 <= j < k < regex_hits(rules, req, at).len() ==> regex_hits(rules, req, at)[j]
                < regex_hits(rules, req, at)[k],
    decreases at.len(),
{
    if at.len() > 0 {
        let front = at.drop_last();
        let before = regex_hits(rules, req, front);
        let all = regex_hits(rules, req, at);
        assert forall|j: int, k: int|
            #![trigger front[j], front[k]]
            0 <= j < k < front.len() implies front[j] < front[k] by {
            assert(at[j] < at[k]);
        }
        lemma_regex_order(rules, req, front);
        assert forall|k: int| #![trigger all[k]] 0 <= k < all.len() implies at.contains(all[k]) by {
            if k < before.len() {
                assert(all[k] == before[k]);
                let n = front.index_of(all[k]);
                assert(at[n] == all[k]);
            } else {
                assert(at[at.len() - 1] == all[k]);
            }
        }
        assert forall|j: int, k: int|
            #![trigger all[j], all[k]]
            0 <= j < k < all.len() implies all[j] < all[k] by {
            assert(all[j] == before[j]);
            if k < before.len() {
                assert(all[k] == before[k]);
            } else {
                let n = front.index_of(before[j]);
                assert(at[n] < at[at.len() - 1]);
            }
        }
    }
}

proof fn lemma_tried_in_order(rules: Seq<Rule>, req: RequestView)
    requires
        rules.len() <= usize::MAX,
        forall|h: int|
            0 <= h < group_keys(rules).len() ==> group_exact(
                rules,
                #[trigger] group_keys(rules)[h],
                req,
            ),
    ensures
        tried_in_order(rules, hit_rules(rules, req)),
{
    let keys = group_keys(rules);
    let literal = literal_hits(rules, req, keys.len());
    let at = regex_rules(rules);
    let regex = regex_hits(rules, req, at);
    let all = hit_rules(rules, req);
    lemma_literal_order(rules, req, keys.len());
    lemma_regex_rules_increase(rules);
    lemma_regex_rules_in_range(rules);
    lemma_regex_order(rules, req, at);
    assert forall|k: int| literal.len() <= k < all.len() implies is_regex(
        rules[#[trigger] all[k]],
    ) by {
        assert(all[k] == regex[k - literal.len()]);
        let n = at.index_of(all[k]);
        assert(is_regex(rules[at[n]]));
    }
    assert forall|j: int, k: int|
        #![trigger all[j], all[k]]
        0 <= j < k < all.len() implies {
        let (a, b) = (rules[all[j]], rules[all[k]]);
        &&& is_regex(a) ==> is_regex(b) && all[j] < all[k]
        &&& !is_regex(b) && key_of(a) != key_of(b) ==> group_before(rules, key_of(a), key_of(b))
    } by {
        if k < literal.len() {
            assert(all[j] == literal[j] && all[k] == literal[k]);
            let (a, b) = (key_of(rules[all[j]]), key_of(rules[all[k]]));
            if a != b {
                let (g, h) = (keys.index_of(a), keys.index_of(b));
                assert(keys[g] == a && keys[h] == b);
                lemma_key_order(rules, g, h);
            }
        } else if j < literal.len() {
            assert(all[j] == literal[j]);
        } else {
            assert(all[j] == regex[j - literal.len()] && all[k] == regex[k - literal.len()]);
        }
    }
}

impl Engine {
    /// Normalises a request as far as the rules need it: without a rule on headers the
    /// headers are left out.
    pub fn normalize(
        &self,
        method: &str,
        path_and_query: Option<&str>,
        query: Option<&str>,
        headers: &HeaderMap<HeaderValue>,
        body: &str,
    ) -> (r: NormalizedRequest)
        requires
            self.wf(),
        ensures
            r.wf(),
            r@ == normalized_request(
                method@,
                opt_view(path_and_query),
                opt_view(query),
                if uses_field(self@.rules, RuleField::Header) {
                    headers::header_fields(*headers)
                } else {
                    Seq::empty()
                },
                body@,
            ),
    {
        if self.needs_headers {
            NormalizedRequest::from_parts(method, path_and_query, query, headers, body)
        } else {
            let fields: Vec<(String, Vec<u8>)> = Vec::new();
            assert(headers::field_views(fields@) =~= Seq::<(Seq<char>, Seq<u8>)>::empty());
            NormalizedRequest::from_fields(method, path_and_query, query, &fields, body)
        }
    }

    /// Adds the rules of the group `g` that a request hits.
    fn match_group(&self, g: usize, req: &NormalizedRequest, out: &mut Vec<usize>)
        requires
            self.wf(),
            req.wf(),
            g < self.literals@.len(),
        ensures
            ints(final(out)@) == ints(old(out)@) + group_hits(
                self.rules@,
                group_keys(self.rules@)[g as int],
                req@,
            ),
            forall|k: int|
                old(out)@.len() <= k < final(out)@.len() ==> #[trigger] final(out)@[k]
                    < self.rules@.len(),
            forall|k: int|
                0 <= k < old(out)@.len() ==> #[trigger] final(out)@[k] == old(out)@[k],
            group_exact(self.rules@, group_keys(self.rules@)[g as int], req@),
    {
        let ghost all = self.rules@;
        let ghost key = group_keys(all)[g as int];
        let ghost at = members(all, key);
        let ghost patterns = patterns_at(all, at);
        let group = &self.literals[g];
        assert(group.key() == key);
        assert(ints(group.rule_idx@) == at);
        assert(matcher::automaton_patterns(group.ac) == patterns);
        proof {
            lemma_members_in_range(all, key);
        }
        let header: Option<&str> = match &group.header {
            Some(h) => Some(h.as_str()),
            None => None,
        };
        let hay = req.field_value(group.field, header);
        let ghost hay_text = field_text(req@, key.0, key.1);
        assert(hay@ == hay_text);
        let ids = matcher::find_literals(&group.ac, hay);
        let ghost found = ids@;
        let ghost before = out@;
        assert(group.rule_idx@.len() == at.len()) by {
            assert(ints(group.rule_idx@).len() == at.len());
        }
        assert(patterns.len() == at.len());
        assert forall|i: int| 0 <= i < found.len() implies #[trigger] ids@[i] < at.len() by {
            assert(found.contains(found[i]));
        }
        let firsts = first_ids(&ids, group.rule_idx.len());
        proof {
            lemma_first_seen(found);
            assert forall|j: int| 0 <= j < firsts@.len() implies (#[trigger] firsts@[j])
                < at.len() by {
                assert(firsts@.contains(firsts@[j]));
                assert(found.contains(firsts@[j]));
            }
        }
        let mut k: usize = 0;
        while k < firsts.len()
            invariant
                k <= firsts@.len(),
                group.rule_idx@.len() == at.len(),
                ints(group.rule_idx@) == at,
                out@.len() == before.len() + k,
                forall|j: int| 0 <= j < firsts@.len() ==> (#[trigger] firsts@[j]) < at.len(),
                forall|j: int| 0 <= j < before.len() ==> #[trigger] out@[j] == before[j],
                forall|j: int|
                    #![trigger out@[j]]
                    before.len() <= j < out@.len() ==> out@[j] == at[firsts@[j
                        - before.len()] as int],
            decreases firsts@.len() - k,
        {
            let pid = firsts[k];
            let ghost so_far = out@;
            assert(ints(group.rule_idx@)[pid as int] == group.rule_idx@[pid as int]);
            out.push(group.rule_idx[pid]);
            assert forall|j: int|
                #![trigger out@[j]]
                before.len() <= j < out@.len() implies out@[j] == at[firsts@[j
                - before.len()] as int] by {
                if j < so_far.len() {
                    assert(out@[j] == so_far[j]);
                }
            }
            k += 1;
        }
        assert(ints(out@) =~= ints(before) + first_seen(found).map_values(
            |p: usize| at[p as int],
        ));
        assert forall|j: int| before.len() <= j < out@.len() implies #[trigger] out@[j]
            < all.len() by {
            let p = firsts@[j - before.len()];
            assert(0 <= at[p as int] < all.len());
        }
    }

    /// The positions of the literal rules that a request hits, group by group.
    fn match_literals(&self, req: &NormalizedRequest) -> (out: Vec<usize>)
        requires
            self.wf(),
            req.wf(),
        ensures
            ints(out@) == literal_hits(self.rules@, req@, group_keys(self.rules@).len()),
            forall|k: int| 0 <= k < out@.len() ==> #[trigger] out@[k] < self.rules@.len(),
            forall|h: int|
                0 <= h < group_keys(self.rules@).len() ==> group_exact(
                    self.rules@,
                    #[trigger] group_keys(self.rules@)[h],
                    req@,
                ),
    {
        let ghost all = self.rules@;
        let ghost keys = group_keys(all);
        let mut out: Vec<usize> = Vec::new();
        let mut g: usize = 0;
        assert(ints(out@) =~= literal_hits(all, req@, 0));
        while g < self.literals.len()
            invariant
                self.wf(),
                req.wf(),
                all == self.rules@,
                keys == group_keys(all),
                self.literals@.len() == keys.len(),
                g <= self.literals@.len(),
                ints(out@) == literal_hits(all, req@, g as nat),
                forall|k: int| 0 <= k < out@.len() ==> #[trigger] out@[k] < all.len(),
                forall|h: int| 0 <= h < g ==> group_exact(all, #[trigger] keys[h], req@),
            decreases self.literals@.len() - g,
        {
            let ghost before = out@;
            self.match_group(g, req, &mut out);
            assert forall|k: int| 0 <= k < out@.len() implies #[trigger] out@[k] < all.len() by {
                if k < before.len() {
                    assert(out@[k] == before[k]);
                }
            }
            g += 1;
        }
        out
    }

    /// Adds the positions of the rules whose regular expression a request hits.
    fn match_regexes(&self, req: &NormalizedRequest, out: &mut Vec<usize>)
        requires
            self.wf(),
            req.wf(),
        ensures
            ints(final(out)@) == ints(old(out)@) + regex_hits(
                self.rules@,
                req@,
                regex_rules(self.rules@),
            ),
            forall|k: int|
                old(out)@.len() <= k < final(out)@.len() ==> #[trigger] final(out)@[k]
                    < self.rules@.len(),
            forall|k: int|
                0 <= k < old(out)@.len() ==> #[trigger] final(out)@[k] == old(out)@[k],
    {
        let ghost all = self.rules@;
        let ghost before = out@;
        let ghost at = regex_rules(all);
        let mut r: usize = 0;
        assert(all.take(all.len() as int) =~= all);
        assert(ints(out@) =~= ints(before) + regex_hits(all, req@, at.take(0)));
        while r < self.regexes.len()
            invariant
                self.wf(),
                req.wf(),
                all == self.rules@,
                all.take(all.len() as int) == all,
                at == regex_rules(all),
                self.regexes@.len() == at.len(),
                r <= self.regexes@.len(),
                before.len() <= out@.len(),
                ints(out@) == ints(before) + regex_hits(all, req@, at.take(r as int)),
                forall|k: int| before.len() <= k < out@.len() ==> #[trigger] out@[k] < all.len(),
                forall|k: int| 0 <= k < before.len() ==> #[trigger] out@[k] == before[k],
            decreases self.regexes@.len() - r,
        {
            let re = &self.regexes[r];
            let ghost prior = out@;
            proof {
                assert(at.take(r as int + 1).drop_last() =~= at.take(r as int));
                assert(at.take(r as int + 1).last() == at[r as int]);
                lemma_regex_rules_in_range(all);
            }
            assert(re.rule == at[r as int]);
            let rule = &self.rules[re.rule];
            let header: Option<&str> = match &rule.header {
                Some(h) => Some(h.as_str()),
                None => None,
            };
            let hay = req.field_value(rule.field, header);
            assert(hay@ == field_text(req@, rule.field, header_of(*rule)));
            if matcher::regex_finds(&re.re, hay) {
                out.push(re.rule);
                assert(ints(out@) =~= ints(prior).push(at[r as int]));
                assert forall|k: int| before.len() <= k < out@.len() implies #[trigger] out@[k]
                    < all.len() by {
                    if k < prior.len() {
                        assert(out@[k] == prior[k]);
                    }
                }
                assert forall|k: int| 0 <= k < before.len() implies #[trigger] out@[k]
                    == before[k] by {
                    assert(out@[k] == prior[k]);
                }
            }
            r += 1;
        }
        assert(at.take(at.len() as int) =~= at);
    }

    /// The positions of the rules that a request hits, each once, in the order in which
    /// they are tried: every regular expression that matches the text that its rule
    /// looks at, and every literal that stands in it.
    pub fn matched_rules(&self, req: &NormalizedRequest) -> (out: Vec<usize>)
        requires
            self.wf(),
            req.wf(),
        ensures
            ints(out@) == hit_rules(self@.rules, req@),
            forall|k: int| 0 <= k < out@.len() ==> #[trigger] out@[k] < self@.rules.len(),
            hits_are_exact(self@.rules, req@),
    {
        let ghost all = self.rules@;
        assert(self.rules.len() <= usize::MAX);
        let mut out = self.match_literals(req);
        let ghost literal = out@;
        self.match_regexes(req, &mut out);
        proof {
            assert forall|k: int| 0 <= k < out@.len() implies #[trigger] out@[k] < all.len() by {
                if k < literal.len() {
                    assert(out@[k] == literal[k]);
                }
            }
            lemma_hits_are_exact(all, req@);
        }
        out
    }

    /// The hits of the rules at some positions.
    pub fn hits_at(&self, at: &Vec<usize>) -> (hits: Vec<Hit>)
        requires
            forall|k: int| 0 <= k < at@.len() ==> #[trigger] at@[k] < self@.rules.len(),
        ensures
            hit_views(hits@) == ints(at@).map_values(|i: int| hit_of(self@.rules[i])),
    {
        let ghost all = self.rules@;
        let mut hits: Vec<Hit> = Vec::new();
        let mut k: usize = 0;
        while k < at.len()
            invariant
                k <= at@.len(),
                all == self.rules@,
                hits@.len() == k,
                forall|k: int| 0 <= k < at@.len() ==> #[trigger] at@[k] < all.len(),
                forall|j: int| 0 <= j < k ==> #[trigger] hits@[j]@ == hit_of(all[at@[j] as int]),
            decreases at@.len() - k,
        {
            let rule = &self.rules[at[k]];
            hits.push(
                Hit { rule_id: rule.id, category: rule.category.clone(), score: rule.score },
            );
            k += 1;
        }
        assert(hit_views(hits@) =~= ints(at@).map_values(|i: int| hit_of(all[i])));
        hits
    }

    /// The hits of a request.
    pub fn collect_hits(&self, req: &NormalizedRequest) -> (hits: Vec<Hit>)
        requires
            self.wf(),
            req.wf(),
        ensures
            hit_views(hits@) == hits_on(self@.rules, req@),
            hits_are_exact(self@.rules, req@),
    {
        let at = self.matched_rules(req);
        self.hits_at(&at)
    }

    /// Judges a request. It is blocked where its dangerous bytes and the rules that it
    /// hits add up to the threshold, and the block carries the hit of each of these
    /// rules once.
    pub fn inspect(&self, req: &NormalizedRequest) -> (v: Verdict)
        requires
            self.wf(),
            req.wf(),
        ensures
            v@ == verdict_of(self@, req@),
            hits_are_exact(self@.rules, req@),
            v@ is Block <==> req@.suspicious * 5 + rule_score(self@.rules, req@)
                >= self@.threshold,
    {
        let hits = self.collect_hits(req);
        judge(self.threshold, req.suspicious, hits)
    }
}

/// Judges the parts of a request: the hits and the score of one that is blocked, `None`
/// for one that passes.
pub fn check_rules(
    engine: &Engine,
    method: &str,
    path_and_query: Option<&str>,
    query: Option<&str>,
    headers: &HeaderMap<HeaderValue>,
    body: &str,
) -> (r: Option<(Vec<Hit>, u32)>)
    requires
        engine.wf(),
    ensures
        checked_by(
            engine@,
            normalized_request(
                method@,
                opt_view(path_and_query),
                opt_view(query),
                headers::header_fields(*headers),
                body@,
            ),
            r,
        ),
        hits_are_exact(
            engine@.rules,
            normalized_request(
                method@,
                opt_view(path_and_query),
                opt_view(query),
                headers::header_fields(*headers),
                body@,
            ),
        ),
{
    let req = engine.normalize(method, path_and_query, query, headers, body);
    let ghost full = normalized_request(
        method@,
        opt_view(path_and_query),
        opt_view(query),
        headers::header_fields(*headers),
        body@,
    );
    proof {
        law_unused_headers_do_not_matter(
            engine@.rules,
            method@,
            opt_view(path_and_query),
            opt_view(query),
            headers::header_fields(*headers),
            body@,
        );
    }
    let verdict = engine.inspect(&req);
    proof {
        if req@ != full {
            assert(same_to_rules(engine@.rules, req@, full));
            lemma_exact_for_same_texts(engine@.rules, req@, full);
            law_hits_depend_on_looked_at_texts(engine@.rules, req@, full);
        }
    }
    match verdict {
        Verdict::Allow => None,
        Verdict::Block { hits, score } => Some((hits, score)),
    }
}

/// What `check_rules` says of a request.
pub open spec fn checked_by(e: EngineView, req: RequestView, r: Option<(Vec<Hit>, u32)>) -> bool {
    match r {
        None => verdict_of(e, req) == VerdictView::Allow,
        Some((h, score)) => verdict_of(e, req) == (VerdictView::Block {
            hits: hit_views(h@),
            score,
        }),
    }
}

/// A request is blocked exactly when its score reaches the threshold.
pub proof fn law_blocked_iff_score_reaches_threshold(
    threshold: u32,
    suspicious: u32,
    hits: Seq<HitView>,
)
    ensures
        verdict_on(threshold, suspicious, hits) is Block <==> score_of(suspicious, hits)
            >= threshold,
{
}

/// A block carries at least one hit and the score of the request, and the rules that
/// were hit are all in it.
pub proof fn law_block_tells_why(threshold: u32, suspicious: u32, hits: Seq<HitView>)
    ensures
        match verdict_on(threshold, suspicious, hits) {
            VerdictView::Allow => true,
            VerdictView::Block { hits: told, score } => {
                &&& told.len() > 0
                &&& score == decode::capped(score_of(suspicious, hits))
                &&& hits.len() > 0 ==> told == hits
            },
        },
{
}

/// Dangerous bytes alone block a request once they reach the threshold, five points
/// for each.
pub proof fn law_dangerous_bytes_block(threshold: u32, suspicious: u32)
    requires
        suspicious * 5 >= threshold,
    ensures
        verdict_on(threshold, suspicious, Seq::empty()) is Block,
{
}

/// A score that is too large to be held blocks, whatever the threshold.
pub proof fn law_large_scores_block(threshold: u32, suspicious: u32, hits: Seq<HitView>)
    requires
        score_of(suspicious, hits) > u32::MAX,
    ensures
        match verdict_on(threshold, suspicious, hits) {
            VerdictView::Allow => false,
            VerdictView::Block { score, .. } => score == u32::MAX,
        },
{
}

/// Another hit never turns a block into a pass.
pub proof fn law_more_hits_never_unblock(
    threshold: u32,
    suspicious: u32,
    hits: Seq<HitView>,
    more: HitView,
)
    ensures
        verdict_on(threshold, suspicious, hits) is Block ==> verdict_on(
            threshold,
            suspicious,
            hits.push(more),
        ) is Block,
{
    assert(hits.push(more).drop_last() =~= hits);
}

/// Two requests whose texts differ in the case of ASCII letters only.
pub open spec fn same_but_case(a: RequestView, b: RequestView) -> bool {
    &&& text::lower(a.method) == text::lower(b.method)
    &&& text::lower(a.url) == text::lower(b.url)
    &&& text::lower(a.args) == text::lower(b.args)
    &&& text::lower(a.headers) == text::lower(b.headers)
    &&& text::lower(a.body) == text::lower(b.body)
    &&& a.header_values.dom() == b.header_values.dom()
    &&& forall|name: Seq<char>| #[trigger]
        a.header_values.contains_key(name) ==> text::lower(a.header_values[name]) == text::lower(
            b.header_values[name],
        )
}

/// Literal rules are blind to the case of ASCII letters: requests that differ in it
/// only hit the same literals.
pub proof fn law_literals_ignore_case(rules: Seq<Rule>, a: RequestView, b: RequestView, n: nat)
    requires
        same_but_case(a, b),
    ensures
        literal_hits(rules, a, n) == literal_hits(rules, b, n),
    decreases n,
{
    if n > 0 {
        law_literals_ignore_case(rules, a, b, (n - 1) as nat);
        let key = group_keys(rules)[n - 1];
        assert(text::lower(field_text(a, key.0, key.1)) == text::lower(
            field_text(b, key.0, key.1),
        )) by {
            match (key.0, key.1) {
                (RuleField::Header, Some(name)) => {
                    let l = text::lower(name);
                    assert(a.header_values.contains_key(l) <==> b.header_values.contains_key(l)) by {
                        assert(a.header_values.dom().contains(l) <==> b.header_values.dom().contains(
                            l,
                        ));
                    }
                },
                _ => {},
            }
        }
    }
}

/// Whether a literal rule is hit does not depend on the case of ASCII letters, neither in
/// its pattern nor in the text that it looks at.
pub proof fn law_literal_rules_ignore_case(r: Rule, s: Rule, a: RequestView, b: RequestView)
    requires
        same_but_case(a, b),
        is_literal(r),
        is_literal(s),
        r.field == s.field,
        header_of(r) == header_of(s),
        text::lower(r.pattern@) == text::lower(s.pattern@),
    ensures
        literal_occurs(r, a) == literal_occurs(s, b),
{
    let x = field_text(a, r.field, header_of(r));
    let y = field_text(b, r.field, header_of(r));
    assert(text::lower(x) == text::lower(y)) by {
        if let Some(name) = header_of(r) {
            let l = text::lower(name);
            assert(a.header_values.dom().contains(l) <==> b.header_values.dom().contains(l));
        }
    }
    if matcher::occurs(r.pattern@, x) {
        lemma_occurs_ignores_case(r.pattern@, s.pattern@, x, y);
    }
    if matcher::occurs(s.pattern@, y) {
        lemma_occurs_ignores_case(s.pattern@, r.pattern@, y, x);
    }
}

proof fn lemma_occurs_ignores_case(p: Seq<char>, q: Seq<char>, x: Seq<char>, y: Seq<char>)
    requires
        text::lower(p) == text::lower(q),
        text::lower(x) == text::lower(y),
        matcher::occurs(p, x),
    ensures
        matcher::occurs(q, y),
{
    let at = choose|at: int| matcher::occurs_at(p, x, at);
    assert(text::lower(p).len() == p.len() && text::lower(q).len() == q.len());
    assert(text::lower(x).len() == x.len() && text::lower(y).len() == y.len());
    let n = p.len();
    assert(text::lower(x.subrange(at, at + n)) =~= text::lower(x).subrange(at, at + n));
    assert(text::lower(y.subrange(at, at + n)) =~= text::lower(y).subrange(at, at + n));
    assert(matcher::occurs_at(q, y, at));
}

/// The two requests show every rule the same text.
pub open spec fn same_to_rules(rules: Seq<Rule>, a: RequestView, b: RequestView) -> bool {
    forall|i: int|
        #![trigger rules[i]]
        0 <= i < rules.len() ==> field_text(a, rules[i].field, header_of(rules[i])) == field_text(
            b,
            rules[i].field,
            header_of(rules[i]),
        )
}

/// Hits depend on nothing but the texts that the rules look at.
pub proof fn law_hits_depend_on_looked_at_texts(rules: Seq<Rule>, a: RequestView, b: RequestView)
    requires
        same_to_rules(rules, a, b),
    ensures
        hit_rules(rules, a) == hit_rules(rules, b),
        hits_on(rules, a) == hits_on(rules, b),
{
    lemma_same_literal_hits(rules, a, b, group_keys(rules).len());
    lemma_regex_rules_in_range(rules);
    lemma_same_regex_hits(rules, a, b, regex_rules(rules));
}

proof fn lemma_key_has_rule(rules: Seq<Rule>, g: int)
    requires
        0 <= g < group_keys(rules).len(),
    ensures
        exists|i: int|
            #![trigger rules[i]]
            0 <= i < rules.len() && is_literal(rules[i]) && key_of(rules[i]) == group_keys(
                rules,
            )[g],
    decreases rules.len(),
{
    let front = rules.drop_last();
    let before = group_keys(front);
    if g < before.len() {
        lemma_key_has_rule(front, g);
        let i = choose|i: int|
            #![trigger front[i]]
            0 <= i < front.len() && is_literal(front[i]) && key_of(front[i]) == before[g];
        assert(rules[i] == front[i]);
    } else {
        assert(key_of(rules[rules.len() - 1]) == group_keys(rules)[g]);
    }
}

proof fn lemma_same_literal_hits(rules: Seq<Rule>, a: RequestView, b: RequestView, n: nat)
    requires
        same_to_rules(rules, a, b),
        n <= group_keys(rules).len(),
    ensures
        literal_hits(rules, a, n) == literal_hits(rules, b, n),
    decreases n,
{
    if n > 0 {
        lemma_same_literal_hits(rules, a, b, (n - 1) as nat);
        let key = group_keys(rules)[n - 1];
        lemma_key_has_rule(rules, n - 1);
        let i = choose|i: int|
            #![trigger rules[i]]
            0 <= i < rules.len() && is_literal(rules[i]) && key_of(rules[i]) == key;
        lemma_key_text(rules[i], a);
        lemma_key_text(rules[i], b);
    }
}

proof fn lemma_same_regex_hits(rules: Seq<Rule>, a: RequestView, b: RequestView, at: Seq<int>)
    requires
        same_to_rules(rules, a, b),
        forall|k: int| 0 <= k < at.len() ==> 0 <= #[trigger] at[k] < rules.len(),
    ensures
        regex_hits(rules, a, at) == regex_hits(rules, b, at),
    decreases at.len(),
{
    if at.len() > 0 {
        lemma_same_regex_hits(rules, a, b, at.drop_last());
        assert(0 <= at[at.len() - 1] < rules.len());
        assert(rules[at.last()] == rules[at.last()]);
    }
}

/// Without a rule on bodies the verdict does not depend on the body of a request: it need
/// not be read.
pub proof fn law_unused_body_does_not_matter(e: EngineView, a: RequestView, b: RequestView)
    requires
        !uses_field(e.rules, RuleField::Body),
        a == (RequestView { body: a.body, ..b }),
    ensures
        hits_on(e.rules, a) == hits_on(e.rules, b),
        verdict_of(e, a) == verdict_of(e, b),
{
    law_hits_depend_on_looked_at_texts(e.rules, a, b);
}

/// Which rules are hit depends on nothing but the texts that the rules look at.
proof fn lemma_exact_for_same_texts(rules: Seq<Rule>, a: RequestView, b: RequestView)
    requires
        same_to_rules(rules, a, b),
        hits_are_exact(rules, a),
    ensures
        hits_are_exact(rules, b),
{
    law_hits_depend_on_looked_at_texts(rules, a, b);
    lemma_same_rule_score(rules, a, b);
}

proof fn lemma_same_rule_score(rules: Seq<Rule>, a: RequestView, b: RequestView)
    requires
        same_to_rules(rules, a, b),
    ensures
        rule_score(rules, a) == rule_score(rules, b),
    decreases rules.len(),
{
    if rules.len() > 0 {
        let front = rules.drop_last();
        assert forall|i: int|
            #![trigger front[i]]
            0 <= i < front.len() implies field_text(a, front[i].field, header_of(front[i]))
            == field_text(b, front[i].field, header_of(front[i])) by {
            assert(front[i] == rules[i]);
        }
        lemma_same_rule_score(front, a, b);
        assert(rules.last() == rules[rules.len() - 1]);
    }
}

/// Without a rule on headers the headers of a request do not matter: they need not be
/// flattened.
pub proof fn law_unused_headers_do_not_matter(
    rules: Seq<Rule>,
    method: Seq<char>,
    path_and_query: Option<Seq<char>>,
    query: Option<Seq<char>>,
    fields: Seq<(Seq<char>, Seq<u8>)>,
    body: Seq<char>,
)
    ensures
        !uses_field(rules, RuleField::Header) ==> same_to_rules(
            rules,
            normalized_request(method, path_and_query, query, fields, body),
            normalized_request(method, path_and_query, query, Seq::empty(), body),
        ),
        !uses_field(rules, RuleField::Header) ==> hits_on(
            rules,
            normalized_request(method, path_and_query, query, fields, body),
        ) == hits_on(
            rules,
            normalized_request(method, path_and_query, query, Seq::empty(), body),
        ),
        normalized_request(method, path_and_query, query, fields, body).suspicious
            == normalized_request(method, path_and_query, query, Seq::empty(), body).suspicious,
{
    if !uses_field(rules, RuleField::Header) {
        law_hits_depend_on_looked_at_texts(
            rules,
            normalized_request(method, path_and_query, query, fields, body),
            normalized_request(method, path_and_query, query, Seq::empty(), body),
        );
    }
}

/// A rule on a named header sees the values of that header and nothing else of a
/// request, under whatever case the name is written.
pub proof fn law_named_header_sees_that_header_only(
    name: Seq<char>,
    other_case: Seq<char>,
    a: RequestView,
    b: RequestView,
)
    requires
        text::lower(name) == text::lower(other_case),
        a.header_values.contains_key(text::lower(name)) == b.header_values.contains_key(
            text::lower(name),
        ),
        a.header_values.contains_key(text::lower(name)) ==> a.header_values[text::lower(name)]
            == b.header_values[text::lower(name)],
    ensures
        field_text(a, RuleField::Header, Some(name)) == field_text(
            b,
            RuleField::Header,
            Some(other_case),
        ),
{
}

/// What the rules see of a request is all of it: the whole method and the whole body as
/// they are, the whole target and the whole query once decoded, with `/` for a target
/// that is not there, and the dangerous bytes of the target, whatever header a rule
/// names.
pub proof fn law_request_is_seen_whole(
    method: Seq<char>,
    path_and_query: Option<Seq<char>>,
    query: Option<Seq<char>>,
    fields: Seq<(Seq<char>, Seq<u8>)>,
    body: Seq<char>,
    header: Option<Seq<char>>,
)
    ensures
        ({
            let r = normalized_request(method, path_and_query, query, fields, body);
            let target = if path_and_query is Some {
                path_and_query.unwrap()
            } else {
                seq!['/']
            };
            let args = if query is Some {
                query.unwrap()
            } else {
                Seq::empty()
            };
            let decoded = decode::percent_decoded(text::bytes_of(target));
            let dangerous = decoded.filter(
                |x: u8| (x <= 31 && x != 9 && x != 10 && x != 13) || x == 127,
            ).len();
            &&& field_text(r, RuleField::Body, header) == body
            &&& field_text(r, RuleField::Method, header) == method
            &&& field_text(r, RuleField::Url, header) == text::lossy(
                decode::normalized(text::bytes_of(target)),
            )
            &&& field_text(r, RuleField::Args, header) == text::lossy(
                decode::normalized(text::bytes_of(args)),
            )
            &&& r.suspicious == if dangerous < 0x1_0000_0000 {
                dangerous
            } else {
                0xffff_ffff
            }
        }),
{
    decode::law_dangerous_bytes_are_counted(text::bytes_of(target_of(path_and_query)));
}

/// All headers in one line are the headers one after the other, each as its name, an
/// equals sign, its value and a space.
pub proof fn law_headers_in_one_line(
    a: Seq<(Seq<char>, Seq<u8>)>,
    b: Seq<(Seq<char>, Seq<u8>)>,
    r: RequestView,
)
    ensures
        flat_headers(a + b) == flat_headers(a) + flat_headers(b),
        a.len() == 0 ==> flat_headers(a) == Seq::<char>::empty(),
        a.len() == 1 ==> flat_headers(a) == a[0].0 + seq!['='] + text::lossy(a[0].1) + seq![' '],
        field_text(r, RuleField::Header, None) == r.headers,
    decreases b.len(),
{
    if a.len() == 1 {
        assert(a.drop_last() =~= Seq::empty());
        assert(flat_headers(a.drop_last()) =~= Seq::<char>::empty());
        assert(flat_headers(a) =~= a[0].0 + seq!['='] + text::lossy(a[0].1) + seq![' ']);
    }
    if b.len() == 0 {
        assert(a + b =~= a);
        assert(flat_headers(a) + flat_headers(b) =~= flat_headers(a));
    } else {
        assert((a + b).drop_last() =~= a + b.drop_last());
        law_headers_in_one_line(a, b.drop_last(), r);
        assert(flat_headers(a + b) =~= flat_headers(a) + flat_headers(b));
    }
}

/// Some values as texts, with a comma and a space between them.
pub open spec fn texts_joined(values: Seq<Seq<u8>>) -> Seq<char>
    decreases values.len(),
{
    if values.len() == 0 {
        Seq::empty()
    } else if values.len() == 1 {
        text::lossy(values[0])
    } else {
        texts_joined(values.drop_last()) + seq![',', ' '] + text::lossy(values.last())
    }
}

/// The values of the fields under a name, whatever the case of its letters.
pub open spec fn values_under(fields: Seq<(Seq<char>, Seq<u8>)>, name: Seq<char>) -> Seq<Seq<u8>> {
    fields.filter(
        |f: (Seq<char>, Seq<u8>)| text::lower(f.0) == text::lower(name),
    ).map_values(|f: (Seq<char>, Seq<u8>)| f.1)
}

/// A rule on a named header sees all the values of that header, whatever the case of the
/// name, in their order and joined by commas, and nothing where there is none.
pub proof fn law_named_header_sees_all_its_values(
    method: Seq<char>,
    path_and_query: Option<Seq<char>>,
    query: Option<Seq<char>>,
    fields: Seq<(Seq<char>, Seq<u8>)>,
    body: Seq<char>,
    name: Seq<char>,
)
    ensures
        field_text(
            normalized_request(method, path_and_query, query, fields, body),
            RuleField::Header,
            Some(name),
        ) == texts_joined(values_under(fields, name)),
        field_text(
            normalized_request(method, path_and_query, query, fields, body),
            RuleField::Header,
            None,
        ) == flat_headers(fields),
{
    lemma_joined_headers(fields, name);
}

proof fn lemma_joined_headers(fields: Seq<(Seq<char>, Seq<u8>)>, name: Seq<char>)
    ensures
        joined_headers(fields).contains_key(text::lower(name)) <==> values_under(
            fields,
            name,
        ).len() > 0,
        joined_headers(fields).contains_key(text::lower(name)) ==> joined_headers(
            fields,
        )[text::lower(name)] == texts_joined(values_under(fields, name)),
    decreases fields.len(),
{
    reveal(Seq::filter);
    let all = values_under(fields, name);
    if fields.len() > 0 {
        let before = values_under(fields.drop_last(), name);
        lemma_joined_headers(fields.drop_last(), name);
        if text::lower(fields.last().0) == text::lower(name) {
            assert(all =~= before.push(fields.last().1));
            assert(all.drop_last() =~= before);
        } else {
            assert(all =~= before);
        }
    } else {
        assert(all.len() == 0);
    }
}

/// A pattern behind `regex:` is a regular expression, and what follows is its text;
/// every other pattern is a literal, unless it is empty.
pub proof fn law_patterns(r: Rule, expression: Seq<char>)
    ensures
        r.pattern@ == seq!['r', 'e', 'g', 'e', 'x', ':'] + expression ==> is_regex(r) && regex_of(r)
            == expression && !is_literal(r),
        is_regex(r) ==> r.pattern@ == seq!['r', 'e', 'g', 'e', 'x', ':'] + regex_of(r),
        r.pattern@.len() > 0 && !is_regex(r) <==> is_literal(r),
{
    reveal_strlit("regex:");
    let prefix = seq!['r', 'e', 'g', 'e', 'x', ':'];
    assert("regex:"@ =~= prefix);
    if r.pattern@ == prefix + expression {
        assert(regex_of(r) =~= expression);
    }
    if is_regex(r) {
        assert(r.pattern@ =~= prefix + regex_of(r));
    }
}

/// A literal rule is hit where its pattern stands anywhere in the text that it looks at,
/// the case of ASCII letters aside.
pub proof fn law_literal_rule_is_hit(r: Rule, req: RequestView, a: Seq<char>, b: Seq<char>)
    requires
        r.pattern@.len() > 0,
        !seq!['r', 'e', 'g', 'e', 'x', ':'].is_prefix_of(r.pattern@),
    ensures
        text::lower(field_text(req, r.field, header_of(r))) == a + text::lower(r.pattern@) + b
            ==> rule_hits(r, req),
        rule_hits(r, req) <==> exists|c: Seq<char>, d: Seq<char>|
            text::lower(field_text(req, r.field, header_of(r))) == #[trigger] (c + text::lower(
                r.pattern@,
            ) + d),
        r.header is Some ==> header_of(r) == Some(r.header.unwrap()@),
        r.header is None ==> header_of(r) is None,
{
    reveal_strlit("regex:");
    assert("regex:"@ =~= seq!['r', 'e', 'g', 'e', 'x', ':']);
    matcher::law_occurrence(r.pattern@, field_text(req, r.field, header_of(r)));
    assert((a + text::lower(r.pattern@) + b).len() >= 0);
}

/// A rule with a regular expression is hit where that matches the text that it looks at;
/// a rule with an empty pattern never is.
pub proof fn law_other_rules_are_hit(r: Rule, req: RequestView, expression: Seq<char>)
    ensures
        r.pattern@ == seq!['r', 'e', 'g', 'e', 'x', ':'] + expression ==> (rule_hits(r, req)
            <==> matcher::regex_matches(expression, field_text(req, r.field, header_of(r)))),
        r.pattern@.len() == 0 ==> !rule_hits(r, req),
{
    law_patterns(r, expression);
}

/// The score of some rules is the sum of the scores of those among them that are hit.
pub proof fn law_rule_scores_add_up(a: Seq<Rule>, b: Seq<Rule>, req: RequestView)
    ensures
        rule_score(a + b, req) == rule_score(a, req) + rule_score(b, req),
        a.len() == 0 ==> rule_score(a, req) == 0,
        a.len() == 1 && rule_hits(a[0], req) ==> rule_score(a, req) == a[0].score,
        a.len() == 1 && !rule_hits(a[0], req) ==> rule_score(a, req) == 0,
    decreases b.len(),
{
    if a.len() == 1 {
        assert(rule_score(a.drop_last(), req) == 0);
    }
    if b.len() == 0 {
        assert(a + b =~= a);
    } else {
        assert((a + b).drop_last() =~= a + b.drop_last());
        law_rule_scores_add_up(a, b.drop_last(), req);
    }
}

/// The score of a request is five points for each dangerous byte, and the scores of its
/// hits.
pub proof fn law_scores_add_up(suspicious: u32, hits: Seq<HitView>, more: HitView)
    ensures
        score_of(suspicious, Seq::empty()) == 5 * suspicious,
        score_of(suspicious, hits.push(more)) == score_of(suspicious, hits) + more.score,
{
    assert(hits.push(more).drop_last() =~= hits);
    assert(suspicious * 5 == 5 * suspicious);
}

/// A request whose hits and dangerous bytes reach the threshold is blocked with exactly
/// these hits and their score; one without hits is blocked with one that says so.
pub proof fn law_block_is_told(threshold: u32, suspicious: u32, hits: Seq<HitView>)
    ensures
        score_of(suspicious, hits) < threshold ==> verdict_on(threshold, suspicious, hits)
            == VerdictView::Allow,
        threshold <= score_of(suspicious, hits) <= 0xffff_ffff && hits.len() > 0 ==> verdict_on(
            threshold,
            suspicious,
            hits,
        ) == (VerdictView::Block { hits, score: score_of(suspicious, hits) as u32 }),
        threshold <= score_of(suspicious, hits) <= 0xffff_ffff && hits.len() == 0 ==> verdict_on(
            threshold,
            suspicious,
            hits,
        ) == (VerdictView::Block {
            hits: seq![
                HitView {
                    rule_id: 0,
                    category: "suspicious"@,
                    score: score_of(suspicious, hits) as u32,
                },
            ],
            score: score_of(suspicious, hits) as u32,
        }),
{
}

/// Every rule that is hit is told, with its number, its category and its score, and
/// every hit that is told is that of a rule that is hit, each once.
pub proof fn law_hits_tell_the_rules(rules: Seq<Rule>, req: RequestView, i: int)
    requires
        hits_are_exact(rules, req),
        0 <= i < rules.len(),
    ensures
        rule_hits(rules[i], req) <==> hit_rules(rules, req).contains(i),
        hit_rules(rules, req).no_duplicates(),
        hits_on(rules, req).len() == hit_rules(rules, req).len(),
        forall|k: int|
            0 <= k < hits_on(rules, req).len() ==> {
                let rule = rules[hit_rules(rules, req)[k]];
                let hit = #[trigger] hits_on(rules, req)[k];
                &&& 0 <= hit_rules(rules, req)[k] < rules.len()
                &&& rule_hits(rule, req)
                &&& hit.rule_id == rule.id
                &&& hit.category == rule.category@
                &&& hit.score == rule.score
            },
{
    let at = hit_rules(rules, req);
    if at.contains(i) {
        let k = at.index_of(i);
        assert(rule_hits(rules[at[k]], req));
    }
}

/// A request is judged by the sum over its dangerous bytes and the rules that it hits,
/// no matter in what order they were found.
pub proof fn law_verdict_is_by_the_rules(e: EngineView, req: RequestView)
    requires
        hits_are_exact(e.rules, req),
    ensures
        verdict_of(e, req) is Block <==> 5 * req.suspicious + rule_score(e.rules, req)
            >= e.threshold,
{
}

/// A literal that stands anywhere in the body of a request, however long that is, hits
/// its rule; where the score of that rule suffices the request is blocked.
pub proof fn law_literal_anywhere_in_the_body_hits(
    e: EngineView,
    method: Seq<char>,
    path_and_query: Option<Seq<char>>,
    query: Option<Seq<char>>,
    fields: Seq<(Seq<char>, Seq<u8>)>,
    before: Seq<char>,
    found: Seq<char>,
    behind: Seq<char>,
    i: int,
    r: Option<(Vec<Hit>, u32)>,
)
    requires
        0 <= i < e.rules.len(),
        e.rules[i].field == RuleField::Body,
        e.rules[i].pattern@.len() > 0,
        !seq!['r', 'e', 'g', 'e', 'x', ':'].is_prefix_of(e.rules[i].pattern@),
        text::lower(found) == text::lower(e.rules[i].pattern@),
        e.rules[i].score >= e.threshold,
        ({
            let req = normalized_request(
                method,
                path_and_query,
                query,
                fields,
                before + found + behind,
            );
            hits_are_exact(e.rules, req) && checked_by(e, req, r)
        }),
    ensures
        r is Some,
        exists|k: int|
            0 <= k < r.unwrap().0@.len() && (#[trigger] r.unwrap().0@[k]).rule_id == e.rules[i].id,
{
    let body = before + found + behind;
    let req = normalized_request(method, path_and_query, query, fields, body);
    let rule = e.rules[i];
    assert(text::lower(body) =~= text::lower(before) + text::lower(found) + text::lower(behind));
    law_literal_rule_is_hit(rule, req, text::lower(before), text::lower(behind));
    law_hits_tell_the_rules(e.rules, req, i);
    let k = hit_rules(e.rules, req).index_of(i);
    lemma_score_holds(hits_on(e.rules, req), k);
    assert(r.unwrap().0@[k]@ == hits_on(e.rules, req)[k]) by {
        assert(hit_views(r.unwrap().0@)[k] == hits_on(e.rules, req)[k]);
    }
}

proof fn lemma_score_holds(hits: Seq<HitView>, k: int)
    requires
        0 <= k < hits.len(),
    ensures
        score_sum(hits) >= hits[k].score,
    decreases hits.len(),
{
    if k < hits.len() - 1 {
        lemma_score_holds(hits.drop_last(), k);
    }
}

/// A field is looked at where any rule, wherever it stands, is on that field.
pub proof fn law_any_rule_counts(rules: Seq<Rule>, more: Rule, f: RuleField)
    ensures
        uses_field(rules.push(more), f) <==> uses_field(rules, f) || more.field == f,
        !uses_field(Seq::empty(), f),
{
    let all = rules.push(more);
    if uses_field(rules, f) {
        let i = choose|i: int| 0 <= i < rules.len() && (#[trigger] rules[i]).field == f;
        assert(all[i].field == f);
    }
    assert(all[rules.len() as int] == more);
    if uses_field(all, f) && more.field != f {
        let i = choose|i: int| 0 <= i < all.len() && (#[trigger] all[i]).field == f;
        assert(rules[i].field == f);
    }
}

/// An engine holds the threshold and all the rules that it was built of, and every one
/// of their regular expressions compiles.
pub proof fn law_engine_holds_its_rules(cfg: Config, e: Engine, i: int, expression: Seq<char>)
    requires
        engine_built(cfg, Ok(e)),
    ensures
        e.wf(),
        e@.threshold == cfg.score_threshold,
        e@.rules == cfg.rules@,
        0 <= i < cfg.rules@.len() && cfg.rules@[i].pattern@ == seq!['r', 'e', 'g', 'e', 'x', ':']
            + expression ==> matcher::regex_compiles(expression),
{
    if 0 <= i < cfg.rules@.len() {
        law_patterns(cfg.rules@[i], expression);
        assert(rule_compiles(cfg.rules@[i]));
    }
}

/// Literals are told before regular expressions, and regular expressions in the order of
/// their rules; of two literals that look at different texts, the one whose text a rule
/// looks at first comes first.
pub proof fn law_hits_come_in_order(rules: Seq<Rule>, req: RequestView, j: int, k: int)
    requires
        hits_are_exact(rules, req),
        0 <= j < k < hit_rules(rules, req).len(),
    ensures
        ({
            let (x, y) = (hit_rules(rules, req)[j], hit_rules(rules, req)[k]);
            &&& is_regex(rules[x]) ==> is_regex(rules[y]) && x < y
            &&& !is_regex(rules[y]) && (rules[x].field != rules[y].field) ==> exists|i: int|
                #![trigger rules[i]]
                0 <= i < rules.len() && is_literal(rules[i]) && rules[i].field == rules[x].field
                    && forall|m: int|
                    #![trigger rules[m]]
                    0 <= m <= i && is_literal(rules[m]) && header_of(rules[m]) == header_of(
                        rules[y],
                    ) ==> rules[m].field != rules[y].field
        }),
{
    let (x, y) = (hit_rules(rules, req)[j], hit_rules(rules, req)[k]);
    if !is_regex(rules[y]) && rules[x].field != rules[y].field {
        let (a, b) = (key_of(rules[x]), key_of(rules[y]));
        assert(group_before(rules, a, b));
        let i = choose|i: int|
            #![trigger rules[i]]
            0 <= i < rules.len() && is_literal(rules[i]) && key_of(rules[i]) == a && forall|m: int|
                #![trigger rules[m]]
                0 <= m <= i && is_literal(rules[m]) ==> key_of(rules[m]) != b;
        assert forall|m: int|
            #![trigger rules[m]]
            0 <= m <= i && is_literal(rules[m]) && header_of(rules[m]) == header_of(
                rules[y],
            ) implies rules[m].field != rules[y].field by {
            assert(key_of(rules[m]) != b);
        }
        assert(rules[i].field == rules[x].field);
    }
}

/// The matches of a search are taken in the order in which each pattern was first found,
/// each once.
pub proof fn law_first_matches(ids: Seq<usize>)
    ensures
        first_seen(ids).no_duplicates(),
        forall|x: usize| first_seen(ids).contains(x) <==> #[trigger] ids.contains(x),
        forall|i: int, j: int|
            #![trigger first_seen(ids)[i], first_seen(ids)[j]]
            0 <= i < j < first_seen(ids).len() ==> found_before(
                ids,
                first_seen(ids)[i],
                first_seen(ids)[j],
            ),
    decreases ids.len(),
{
    lemma_first_seen(ids);
    if ids.len() > 0 {
        let front = ids.drop_last();
        let before = first_seen(front);
        let all = first_seen(ids);
        law_first_matches(front);
        assert forall|i: int, j: int|
            #![trigger all[i], all[j]]
            0 <= i < j < all.len() implies found_before(ids, all[i], all[j]) by {
            assert(all[i] == before[i]);
            let k = if j < before.len() {
                assert(all[j] == before[j]);
                choose|k: int|
                    0 <= k < front.len() && #[trigger] front[k] == all[i] && forall|m: int|
                        0 <= m <= k ==> #[trigger] front[m] != all[j]
            } else {
                assert(before.contains(before[i]));
                assert(front.contains(all[i]));
                front.index_of(all[i])
            };
            assert(front[k] == ids[k]);
            assert forall|m: int| 0 <= m <= k implies #[trigger] ids[m] != all[j] by {
                assert(front[m] == ids[m]);
                if j >= before.len() && ids[m] == all[j] {
                    assert(front.contains(front[m]));
                    assert(before.contains(all[j]));
                }
            }
        }
    }
}

/// `x` was found at a place up to which `y` was not.
pub open spec fn found_before(ids: Seq<usize>, x: usize, y: usize) -> bool {
    exists|k: int|
        0 <= k < ids.len() && #[trigger] ids[k] == x && forall|m: int|
            0 <= m <= k ==> #[trigger] ids[m] != y
}

/// A rule set is refused for a regular expression only where one does not compile, and the
/// first such rule is named; where all of them compile it is refused only for its literals.
pub proof fn law_refused_rule_sets(cfg: Config, r: Result<Engine, EngineError>)
    requires
        engine_built(cfg, r),
    ensures
        r matches Err(EngineError::Regex { rule, error }) ==> {
            &&& rule < cfg.rules@.len()
            &&& is_regex(cfg.rules@[rule as int])
            &&& !matcher::regex_compiles(regex_of(cfg.rules@[rule as int]))
            &&& forall|i: int|
                0 <= i < rule && is_regex(#[trigger] cfg.rules@[i]) ==> matcher::regex_compiles(
                    regex_of(cfg.rules@[i]),
                )
        },
        (exists|i: int|
            0 <= i < cfg.rules@.len() && is_regex(#[trigger] cfg.rules@[i])
                && !matcher::regex_compiles(regex_of(cfg.rules@[i]))) ==> r matches Err(
            EngineError::Regex { .. },
        ),
{
    if exists|i: int|
        0 <= i < cfg.rules@.len() && is_regex(#[trigger] cfg.rules@[i]) && !matcher::regex_compiles(
            regex_of(cfg.rules@[i]),
        ) {
        let i = choose|i: int|
            0 <= i < cfg.rules@.len() && is_regex(#[trigger] cfg.rules@[i])
                && !matcher::regex_compiles(regex_of(cfg.rules@[i]));
        assert(!rule_compiles(cfg.rules@[i]));
    }
    if let Err(EngineError::Regex { rule, error }) = r {
        assert forall|i: int| 0 <= i < rule && is_regex(#[trigger] cfg.rules@[i]) implies
            matcher::regex_compiles(regex_of(cfg.rules@[i])) by {
            assert(rule_compiles(cfg.rules@[i]));
        }
    }
}

/// The answer on the parts of a request is a block exactly where its dangerous bytes and the
/// rules that it hits reach the threshold, and then it tells the score and the hits.
pub proof fn law_answer_is_by_the_score(
    e: EngineView,
    req: RequestView,
    r: Option<(Vec<Hit>, u32)>,
)
    requires
        hits_are_exact(e.rules, req),
        checked_by(e, req, r),
    ensures
        ({
            let score = 5 * req.suspicious + rule_score(e.rules, req);
            &&& r is Some <==> score >= e.threshold
            &&& r is Some && score <= 0xffff_ffff ==> r.unwrap().1 == score
            &&& r is Some && score > 0xffff_ffff ==> r.unwrap().1 == 0xffff_ffff
            &&& r is Some && hits_on(e.rules, req).len() > 0 ==> hit_views(r.unwrap().0@) == hits_on(
                e.rules,
                req,
            )
            &&& r is Some ==> r.unwrap().0@.len() > 0
        }),
{
    if let Some((h, score)) = r {
        assert(hit_views(h@).len() == h@.len());
    }
}

} // verus!
