//! The rule set and the limits of the firewall.

use vstd::prelude::*;

verus! {

/// The contents of a rule file.
#[derive(Debug, Clone)]
pub struct Config {
    /// A request whose score reaches this value is blocked.
    pub score_threshold: u32,
    /// Tokens that the bucket of one address holds.
    pub cc_capacity: u32,
    /// Tokens that a bucket gains per second.
    pub cc_refill_per_sec: u32,
    pub rules: Vec<Rule>,
}

/// The bucket size of a rule file that names none.
pub fn default_cc_capacity() -> (n: u32)
    ensures
        n == 100,
{
    100
}

/// The refill rate of a rule file that names none.
pub fn default_cc_refill() -> (n: u32)
    ensures
        n == 10,
{
    10
}

/// One rule.
#[derive(Debug, Clone)]
pub struct Rule {
    pub id: u32,
    pub name: String,
    pub category: String,
    pub field: RuleField,
    /// A literal, or a regular expression behind the prefix `regex:`.
    pub pattern: String,
    pub score: u32,
    /// For a rule on headers: the one header it looks at, such as `User-Agent`.
    /// Without it the rule looks at all headers.
    pub header: Option<String>,
}

/// The part of a request that a rule looks at.
#[derive(Debug, Clone, Copy, PartialEq, Eq, Hash, Structural)]
pub enum RuleField {
    Url,
    Args,
    Header,
    Body,
    Method,
}

} // verus!
