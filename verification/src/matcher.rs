//! The pattern matchers that the rule engine rests on.

use crate::text;
use aho_corasick::{AhoCorasick, AhoCorasickBuilder, BuildError};
use regex::Regex;
use vstd::prelude::*;

verus! {

/// `aho_corasick::AhoCorasick`, an automaton for many literals at once.
#[verifier::external_type_specification]
#[verifier::external_body]
pub struct ExAhoCorasick(AhoCorasick);

/// `aho_corasick::BuildError`.
#[verifier::external_type_specification]
#[verifier::external_body]
pub struct ExBuildError(BuildError);

/// `regex::Regex`, a compiled regular expression.
#[verifier::external_type_specification]
#[verifier::external_body]
pub struct ExRegex(Regex);

/// `regex::Error`.
#[verifier::external_type_specification]
#[verifier::external_body]
pub struct ExRegexError(regex::Error);

/// The patterns that an automaton holds, each under its position.
pub uninterp spec fn automaton_patterns(ac: AhoCorasick) -> Seq<Seq<char>>;

/// Whether an automaton was built for the kind of matching that overlapping searches
/// ask for.
pub uninterp spec fn automaton_overlaps(ac: AhoCorasick) -> bool;

/// Whether an automaton that ignores ASCII case can be built from the patterns.
pub uninterp spec fn automaton_builds(patterns: Seq<Seq<char>>) -> bool;

/// The positions of the patterns that a search of `hay` for all matches, overlapping
/// ones too, reports, in the order of the matches. Patterns and text are given in lower
/// case.
pub uninterp spec fn literal_matches(patterns: Seq<Seq<char>>, hay: Seq<char>) -> Seq<usize>;

/// The text that a regular expression was compiled from.
pub uninterp spec fn regex_text(re: Regex) -> Seq<char>;

/// Whether a text is a regular expression that compiles.
pub uninterp spec fn regex_compiles(pattern: Seq<char>) -> bool;

/// Whether the regular expression `pattern` matches anywhere in `hay`.
pub uninterp spec fn regex_matches(pattern: Seq<char>, hay: Seq<char>) -> bool;

/// Each of the texts in lower case.
pub open spec fn lowered(v: Seq<Seq<char>>) -> Seq<Seq<char>> {
    v.map_values(|s: Seq<char>| text::lower(s))
}

/// `pattern` stands in `hay` from position `at` on, ASCII case aside.
pub open spec fn occurs_at(pattern: Seq<char>, hay: Seq<char>, at: int) -> bool {
    &&& 0 <= at <= hay.len() - pattern.len()
    &&& text::lower(hay.subrange(at, at + pattern.len())) == text::lower(pattern)
}

/// `pattern` stands somewhere in `hay`, ASCII case aside.
pub open spec fn occurs(pattern: Seq<char>, hay: Seq<char>) -> bool {
    exists|at: int| occurs_at(pattern, hay, at)
}

/// Those of the patterns whose position is among `ids` stand in `hay`, and no others do.
pub open spec fn reports(ids: Seq<usize>, patterns: Seq<Seq<char>>, hay: Seq<char>) -> bool {
    forall|p: usize| #[trigger]
        ids.contains(p) <==> p < patterns.len() && occurs(patterns[p as int], hay)
}

/// Calls `AhoCorasickBuilder::build` with `ascii_case_insensitive` set. Whether it
/// succeeds is a function of the patterns. The automaton holds those patterns, and has
/// the default kind of matching, with which overlapping matches can be searched for.
#[verifier::external_body]
pub(crate) fn build_automaton(patterns: &Vec<String>) -> (r: Result<AhoCorasick, BuildError>)
    ensures
        r is Ok <==> automaton_builds(text::views(patterns@)),
        r matches Ok(ac) ==> automaton_patterns(ac) == text::views(patterns@),
        r matches Ok(ac) ==> automaton_overlaps(ac),
{
    AhoCorasickBuilder::new().ascii_case_insensitive(true).build(patterns)
}

/// Calls `AhoCorasick::find_overlapping_iter` and takes the position of the pattern out
/// of each match. The result is a function of the patterns and of the text, and the case
/// of ASCII letters makes no difference in either. A pattern is reported where it stands
/// in the text, and only there. The search panics on an automaton that was built for
/// another kind of matching.
#[verifier::external_body]
pub(crate) fn find_literals(ac: &AhoCorasick, hay: &str) -> (ids: Vec<usize>)
    requires
        automaton_overlaps(*ac),
    ensures
        ids@ == literal_matches(lowered(automaton_patterns(*ac)), text::lower(hay@)),
        reports(ids@, automaton_patterns(*ac), hay@),
{
    ac.find_overlapping_iter(hay).map(|m| m.pattern().as_usize()).collect()
}

/// Calls `Regex::new`. Whether it succeeds is a function of the text, and the
/// expression keeps that text.
#[verifier::external_body]
pub(crate) fn compile_regex(pattern: &str) -> (r: Result<Regex, regex::Error>)
    ensures
        r is Ok <==> regex_compiles(pattern@),
        r matches Ok(re) ==> regex_text(re) == pattern@,
{
    Regex::new(pattern)
}

/// Calls `Regex::is_match`. The result is a function of the expression and of the
/// text.
#[verifier::external_body]
pub(crate) fn regex_finds(re: &Regex, hay: &str) -> (r: bool)
    ensures
        r == regex_matches(regex_text(*re), hay@),
{
    re.is_match(hay)
}

/// A pattern stands in a text where the text, in lower case, is the pattern, in lower
/// case, with something before it and something behind it.
pub proof fn law_occurrence(pattern: Seq<char>, hay: Seq<char>)
    ensures
        occurs(pattern, hay) <==> exists|a: Seq<char>, b: Seq<char>|
            text::lower(hay) == #[trigger] (a + text::lower(pattern) + b),
{
    let (low, p) = (text::lower(hay), text::lower(pattern));
    assert(low.len() == hay.len() && p.len() == pattern.len());
    if occurs(pattern, hay) {
        let at = choose|at: int| occurs_at(pattern, hay, at);
        let (a, b) = (low.take(at), low.skip(at + pattern.len()));
        assert(text::lower(hay.subrange(at, at + pattern.len())) =~= low.subrange(
            at,
            at + pattern.len(),
        ));
        assert(low =~= a + p + b);
    }
    if exists|a: Seq<char>, b: Seq<char>| low == #[trigger] (a + p + b) {
        let (a, b) = choose|a: Seq<char>, b: Seq<char>| low == #[trigger] (a + p + b);
        let at = a.len() as int;
        assert(low.len() == a.len() + p.len() + b.len());
        let found = hay.subrange(at, at + pattern.len());
        assert forall|i: int| 0 <= i < p.len() implies text::lower(found)[i] == p[i] by {
            assert(low[at + i] == (a + p + b)[at + i]);
        }
        assert(text::lower(found) =~= p);
        assert(occurs_at(pattern, hay, at));
    }
}

} // verus!
