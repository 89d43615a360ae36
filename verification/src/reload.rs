//! New rules while the firewall runs.

use crate::config::Config;
use crate::engine::{self, Engine, EngineError};
use crate::limiter::{self, RateLimiter};
use std::collections::hash_map::DefaultHasher;
use std::hash::Hasher;
use std::sync::Arc;
use vstd::prelude::*;
use vstd::std_specs::hash::DefaultHasherAdditionalSpecFns;

verus! {

/// What is remembered of a rule file: its length, the time of its last change in
/// nanoseconds since the UNIX epoch, and a hash of its bytes.
#[derive(Clone, Copy, Debug, PartialEq, Eq, Structural)]
pub struct RuleFingerprint {
    pub len: u64,
    pub modified: Option<i128>,
    pub hash: u64,
}

/// The fingerprint of a file with these bytes.
pub fn fingerprint(bytes: &[u8], len: u64, modified: Option<i128>) -> (f: RuleFingerprint)
    ensures
        f.len == len,
        f.modified == modified,
        f.hash == DefaultHasher::spec_finish(seq![bytes@]),
{
    let mut h = DefaultHasher::new();
    h.write(bytes);
    assert(h@ =~= seq![bytes@]);
    RuleFingerprint { len, modified, hash: h.finish() }
}

/// Whether the rules are to be read again: the file can be read, and is not as it was
/// when last seen.
pub open spec fn is_change(
    last: Option<RuleFingerprint>,
    current: Option<RuleFingerprint>,
) -> bool {
    current is Some && current != last
}

/// Looks at the rule file once more. The first result is what is remembered from now
/// on, the second whether the rules are to be read again. A file that cannot be read
/// is forgotten, and waited for.
pub fn poll(last: Option<RuleFingerprint>, current: Option<RuleFingerprint>) -> (r: (
    Option<RuleFingerprint>,
    bool,
))
    ensures
        r.0 == current,
        r.1 == is_change(last, current),
{
    match (last, current) {
        (Some(a), Some(b)) => {
            let same = a.len == b.len && same_time(a.modified, b.modified) && a.hash == b.hash;
            assert(same ==> a == b);
            (current, !same)
        },
        (None, Some(_)) => (current, true),
        (_, None) => (None, false),
    }
}

fn same_time(a: Option<i128>, b: Option<i128>) -> (r: bool)
    ensures
        r == (a == b),
{
    match (a, b) {
        (Some(x), Some(y)) => x == y,
        (None, None) => true,
        _ => false,
    }
}

/// What the firewall works with: the rules and the limit. A request keeps the rules
/// that it started with.
pub struct Runtime {
    pub engine: Arc<Engine>,
    pub limiter: RateLimiter,
}

impl Runtime {
    /// Both are in order.
    pub open spec fn wf(&self) -> bool {
        self.engine.wf() && self.limiter.wf()
    }
}

/// What is made of a rule file: the rules, and a limit without any buckets.
pub open spec fn runtime_built(cfg: Config, r: Result<Runtime, EngineError>) -> bool {
    match r {
        Ok(t) => {
            &&& t.wf()
            &&& engine::engine_built(cfg, Ok(*t.engine))
            &&& t.limiter@.capacity == cfg.cc_capacity
            &&& t.limiter@.refill_per_sec == cfg.cc_refill_per_sec
            &&& limiter::is_new(t.limiter@)
        },
        Err(e) => engine::engine_built(cfg, Err(e)),
    }
}

/// Builds what the firewall works with from a rule file.
pub fn reload_runtime(cfg: Config) -> (r: Result<Runtime, EngineError>)
    ensures
        runtime_built(cfg, r),
{
    let capacity = cfg.cc_capacity;
    let refill = cfg.cc_refill_per_sec;
    match Engine::new(cfg) {
        Ok(engine) => Ok(
            Runtime { engine: Arc::new(engine), limiter: RateLimiter::new(capacity, refill) },
        ),
        Err(e) => Err(e),
    }
}

/// Puts a new runtime in the place of the old one; where it could not be built the old
/// one stays. `true` means that the new one is in place.
pub fn install_reloaded(current: &mut Runtime, result: Result<Runtime, EngineError>) -> (done: bool)
    ensures
        done == (result is Ok),
        match result {
            Ok(new) => *final(current) == new,
            Err(_) => *final(current) == *old(current),
        },
{
    match result {
        Ok(new) => {
            *current = new;
            true
        },
        Err(_) => false,
    }
}

/// The same file twice in a row is read once.
pub proof fn law_same_file_is_read_once(
    last: Option<RuleFingerprint>,
    current: Option<RuleFingerprint>,
)
    ensures
        !is_change(current, current),
        current != last && current is Some ==> is_change(last, current),
{
}

/// A file that comes back after it could not be read is read again, changed or not.
pub proof fn law_file_that_comes_back_is_read(f: RuleFingerprint)
    ensures
        !is_change(Some(f), None),
        is_change(None, Some(f)),
{
}

/// The rules are read again exactly where the file can be read and differs in length, time
/// or contents from what was last seen.
pub proof fn law_changes(last: Option<RuleFingerprint>, now: RuleFingerprint)
    ensures
        !is_change(last, None),
        is_change(None, Some(now)),
        last matches Some(f) ==> (is_change(last, Some(now)) <==> f.len != now.len || f.modified
            != now.modified || f.hash != now.hash),
{
}

/// What is made of a rule file works by the limits and the rules of that file, and no
/// address has used any of its tokens yet.
pub proof fn law_new_runtime_is_by_the_file(cfg: Config, t: Runtime, ip: Seq<char>)
    requires
        runtime_built(cfg, Ok(t)),
    ensures
        t.wf(),
        t.limiter@.capacity == cfg.cc_capacity,
        t.limiter@.refill_per_sec == cfg.cc_refill_per_sec,
        limiter::tokens_of(t.limiter@, ip) == cfg.cc_capacity,
        t.engine@.threshold == cfg.score_threshold,
        t.engine@.rules == cfg.rules@,
{
    assert(0 <= limiter::shard_of(ip) < 16);
    assert(t.limiter@.shards[limiter::shard_of(ip)].buckets == Map::<
        Seq<char>,
        limiter::Bucket,
    >::empty());
}

} // verus!
