//! Addresses that are blocked for a time.
//!
//! Entries are kept under the canonical text of the address. One that has expired goes
//! as soon as it is asked for; the others go in a sweep over the whole table, which
//! happens at most once in an interval.

use crate::addr;
use crate::clock::{self, Clock, Moment};
use crate::table::{self, Table};
use std::time::Duration;
use vstd::prelude::*;

verus! {

/// A sweep happens at most once in so many nanoseconds.
pub const CLEANUP_INTERVAL: u128 = 30_000_000_000;

/// One blocked address, and the UNIX second at which it is free again.
#[derive(Debug, Clone)]
pub struct BlockedEntry {
    pub ip: String,
    pub expires_at: u64,
}

/// The table of blocked addresses, with the moment at which each is free again, and
/// the moment of the last sweep.
pub struct Inner {
    pub map: Table<Moment>,
    pub last_cleanup: Moment,
}

/// The contents of the table.
#[verifier::ext_equal]
pub ghost struct BlockView {
    pub map: Map<Seq<char>, Moment>,
    pub last_cleanup: Moment,
}

impl View for Inner {
    type V = BlockView;

    open spec fn view(&self) -> BlockView {
        BlockView { map: self.map@, last_cleanup: self.last_cleanup }
    }
}

/// The addresses that are blocked for a time.
pub struct BlockList {
    pub inner: Inner,
    pub clock: Clock,
}

impl View for BlockList {
    type V = BlockView;

    open spec fn view(&self) -> BlockView {
        self.inner@
    }
}

/// The moment lies in the future.
pub open spec fn is_later(at: Moment, now: Moment) -> bool {
    at@ > now@
}

/// The moments in the future.
pub open spec fn later_than(now: Moment) -> spec_fn(Moment) -> bool {
    |at: Moment| is_later(at, now)
}

/// The table without the entries that have expired.
pub open spec fn live(v: BlockView, now: Moment) -> BlockView {
    BlockView { map: table::kept(v.map, later_than(now)), last_cleanup: now }
}

/// The table after the sweep that may be due.
pub open spec fn swept(v: BlockView, now: Moment) -> BlockView {
    if clock::elapsed(v.last_cleanup@, now@) >= CLEANUP_INTERVAL {
        live(v, now)
    } else {
        v
    }
}

/// Whether the address known under `key` is blocked.
pub open spec fn blocked(v: BlockView, key: Seq<char>, now: Moment) -> bool {
    v.map.contains_key(key) && is_later(v.map[key], now)
}

/// The table after a question about the address known under `key`.
pub open spec fn asked(v: BlockView, key: Seq<char>, now: Moment) -> BlockView {
    let s = swept(v, now);
    if s.map.contains_key(key) && !is_later(s.map[key], now) {
        BlockView { map: s.map.remove(key), ..s }
    } else {
        s
    }
}

/// The table with an address that is blocked until the moment `until`.
pub open spec fn with_block(v: BlockView, key: Seq<char>, until: Moment) -> BlockView {
    BlockView { map: v.map.insert(key, until), ..v }
}

/// Every address is kept under its canonical text.
pub open spec fn keys_canonical(v: BlockView) -> bool {
    forall|key: Seq<char>| #[trigger]
        v.map.contains_key(key) ==> addr::normalized(key) == Some(key)
}

/// The table without an address.
pub open spec fn without(v: BlockView, key: Seq<char>) -> BlockView {
    BlockView { map: v.map.remove(key), ..v }
}

/// The texts of some entries.
pub open spec fn entry_ips(v: Seq<BlockedEntry>) -> Seq<Seq<char>> {
    v.map_values(|e: BlockedEntry| e.ip@)
}

/// The result is an error with this message.
pub open spec fn is_error<T>(r: Result<T, String>, message: Seq<char>) -> bool {
    r matches Err(e) && e@ == message
}

/// The message for a block that would never end.
pub open spec fn too_long_message() -> Seq<char> {
    "封禁时长过大，无法计算解封时间"@
}

/// What a block of so many nanoseconds does to the table, and what it returns. The
/// clocks are read first at its start, and then, both of them, for the entry.
pub open spec fn blocks(
    before: BlockView,
    after: BlockView,
    ip: Seq<char>,
    nanos: u128,
    at: (Moment, Moment, u64),
    r: Result<BlockedEntry, String>,
) -> bool {
    let end = at.0@ + nanos;
    match addr::normalized(ip) {
        None => after == before && is_error(r, addr::invalid_ip_message(ip)),
        Some(key) => if end > clock::MAX_MOMENT {
            after == before && is_error(r, too_long_message())
        } else {
            &&& r matches Ok(e)
            &&& e.ip@ == key
            &&& e.expires_at == clock::unix_secs_of(end, at.1@, at.2)
            &&& after == with_block(before, key, after.map[key])
            &&& after.map[key]@ == end
        },
    }
}

/// The entries are those of the blocked addresses, each once. The clocks are read
/// first for the question, and then, both of them, for the entries.
pub open spec fn lists(v: BlockView, out: Seq<BlockedEntry>, at: (Moment, Moment, u64)) -> bool {
    &&& entry_ips(out).no_duplicates()
    &&& forall|key: Seq<char>|
        blocked(v, key, at.0) <==> #[trigger] entry_ips(out).contains(key)
    &&& forall|i: int|
        0 <= i < out.len() ==> (#[trigger] out[i]).expires_at == clock::unix_secs_of(
            v.map[out[i].ip@]@,
            at.1@,
            at.2,
        )
}

impl Inner {
    /// Drops every entry that has expired.
    pub fn sweep(&mut self, now: Moment)
        requires
            old(self).map.wf(),
        ensures
            final(self).map.wf(),
            final(self)@ == live(old(self)@, now),
    {
        let keep = |at: &Moment| -> (r: bool)
            ensures
                r == is_later(*at, now),
        {
            at.is_after(now)
        };
        self.map.retain(keep, Ghost(later_than(now)));
        self.last_cleanup = now;
    }
}

impl BlockList {
    /// The table is in order, and every address in it under its canonical text.
    pub open spec fn wf(&self) -> bool {
        self.inner.map.wf() && keys_canonical(self@)
    }

    /// An empty list. It counts as swept when its clock starts.
    pub fn new() -> (l: Self)
        ensures
            l.wf(),
            l@.map == Map::<Seq<char>, Moment>::empty(),
            l@.last_cleanup@ == 0,
    {
        let clock = Clock::start();
        BlockList { inner: Inner { map: Table::new(), last_cleanup: Moment::start() }, clock }
    }

    /// Blocks an address at the moment `now`, for a time. The entry that is returned
    /// tells the end in UNIX seconds, by a reading of both clocks taken later.
    pub fn block_at(
        &mut self,
        ip: &str,
        duration: Duration,
        now: Moment,
        reading: Moment,
        unix_now: u64,
    ) -> (r: Result<BlockedEntry, String>)
        requires
            old(self).wf(),
        ensures
            final(self).wf(),
            final(self).clock == old(self).clock,
            blocks(
                old(self)@,
                final(self)@,
                ip@,
                clock::duration_nanos(duration),
                (now, reading, unix_now),
                r,
            ),
    {
        let key = match addr::normalize_ip_str(ip) {
            Ok(key) => key,
            Err(e) => {
                return Err(e);
            },
        };
        let at = match now.checked_add(duration) {
            Some(at) => at,
            None => {
                return Err("封禁时长过大，无法计算解封时间".to_owned());
            },
        };
        proof {
            addr::law_normalization_is_idempotent(ip@);
        }
        self.inner.map.insert(key.as_str(), at);
        assert(self@ =~= with_block(old(self)@, key@, self@.map[key@]));
        let expires_at = clock::unix_secs(at, reading, unix_now);
        Ok(BlockedEntry { ip: key, expires_at })
    }

    /// Blocks an address now, for a time. Only a time that runs past the limit of the clock
    /// is refused, so that one of nought never is.
    pub fn block(&mut self, ip: &str, duration: Duration) -> (r: Result<BlockedEntry, String>)
        requires
            old(self).wf(),
        ensures
            final(self).wf(),
            final(self).clock == old(self).clock,
            exists|at: (Moment, Moment, u64)|
                clock::is_reading(at.0) && clock::is_reading(at.1) && #[trigger] blocks(
                    old(self)@,
                    final(self)@,
                    ip@,
                    clock::duration_nanos(duration),
                    at,
                    r,
                ),
            clock::duration_nanos(duration) == 0 ==> (r is Ok <==> addr::normalized(ip@) is Some),
    {
        let now = self.clock.now();
        let reading = self.clock.now();
        let unix_now = clock::unix_now();
        let r = self.block_at(ip, duration, now, reading, unix_now);
        assert(blocks(
            old(self)@,
            self@,
            ip@,
            clock::duration_nanos(duration),
            (now, reading, unix_now),
            r,
        ));
        r
    }

    /// Frees an address; `true` where it was in the table.
    pub fn unblock(&mut self, ip: &str) -> (r: Result<bool, String>)
        requires
            old(self).wf(),
        ensures
            final(self).wf(),
            final(self).clock == old(self).clock,
            match addr::normalized(ip@) {
                None => final(self)@ == old(self)@ && is_error(r, addr::invalid_ip_message(ip@)),
                Some(key) => final(self)@ == without(old(self)@, key) && r == Ok::<bool, String>(
                    old(self)@.map.contains_key(key),
                ),
            },
    {
        match addr::normalize_ip_str(ip) {
            Ok(key) => {
                let found = self.inner.map.remove(key.as_str());
                assert(keys_canonical(self@)) by {
                    assert forall|k: Seq<char>| #[trigger]
                        self@.map.contains_key(k) implies addr::normalized(k) == Some(k) by {
                        assert(old(self)@.map.contains_key(k));
                    }
                }
                Ok(found)
            },
            Err(e) => Err(e),
        }
    }

    /// Whether an address is blocked at a moment. A text that is no address is not.
    pub fn is_blocked_at(&mut self, ip: &str, now: Moment) -> (r: bool)
        requires
            old(self).wf(),
        ensures
            final(self).wf(),
            final(self).clock == old(self).clock,
            match addr::normalized(ip@) {
                None => final(self)@ == old(self)@ && !r,
                Some(key) => final(self)@ == asked(old(self)@, key, now) && r == blocked(
                    old(self)@,
                    key,
                    now,
                ),
            },
    {
        let key = match addr::normalize_ip_str(ip) {
            Ok(key) => key,
            Err(_) => {
                return false;
            },
        };
        BlockList::maybe_sweep(&mut self.inner, now);
        match self.inner.map.get(key.as_str()) {
            Some(at) => {
                if at.is_after(now) {
                    return true;
                }
            },
            None => {
                return false;
            },
        }
        self.inner.map.remove(key.as_str());
        false
    }

    /// Whether an address is blocked now.
    pub fn is_blocked(&mut self, ip: &str) -> (r: bool)
        requires
            old(self).wf(),
        ensures
            final(self).wf(),
            final(self).clock == old(self).clock,
            match addr::normalized(ip@) {
                None => final(self)@ == old(self)@ && !r,
                Some(key) => exists|now: Moment|
                    clock::is_reading(now) && final(self)@ == #[trigger] asked(
                        old(self)@,
                        key,
                        now,
                    ) && r == blocked(old(self)@, key, now),
            },
    {
        let now = self.clock.now();
        self.is_blocked_at(ip, now)
    }

    /// The addresses that are blocked at a moment, in no particular order. The entries
    /// tell the ends in UNIX seconds, by a reading of both clocks taken later.
    pub fn list_at(&mut self, now: Moment, reading: Moment, unix_now: u64) -> (out: Vec<
        BlockedEntry,
    >)
        requires
            old(self).wf(),
        ensures
            final(self).wf(),
            final(self).clock == old(self).clock,
            final(self)@ == live(old(self)@, now),
            lists(old(self)@, out@, (now, reading, unix_now)),
    {
        self.inner.sweep(now);
        let ghost keys = self.inner.map.keys();
        let ghost all = old(self)@.map;
        proof {
            self.inner.map.lemma_keys();
        }
        let n = self.inner.map.len();
        let mut out: Vec<BlockedEntry> = Vec::new();
        let mut i: usize = 0;
        assert(entry_ips(out@) =~= keys.take(0));
        while i < n
            invariant
                i <= n,
                n == keys.len(),
                self.wf(),
                self.clock == old(self).clock,
                self@ == live(old(self)@, now),
                keys == self.inner.map.keys(),
                all == old(self)@.map,
                keys.no_duplicates(),
                forall|k: Seq<char>| self.inner.map@.contains_key(k) <==> #[trigger] keys.contains(k),
                out@.len() == i,
                entry_ips(out@) == keys.take(i as int),
                forall|j: int|
                    0 <= j < out@.len() ==> (#[trigger] out@[j]).expires_at == clock::unix_secs_of(
                        all[out@[j].ip@]@,
                        reading@,
                        unix_now,
                    ),
            decreases n - i,
        {
            let ghost before = out@;
            let at = *self.inner.map.value_at(i);
            let ip = self.inner.map.key_at(i).clone();
            assert(keys.contains(keys[i as int]));
            assert(at == all[keys[i as int]]);
            out.push(BlockedEntry { ip, expires_at: clock::unix_secs(at, reading, unix_now) });
            assert(entry_ips(out@) =~= keys.take(i as int + 1));
            i += 1;
        }
        assert(keys.take(keys.len() as int) =~= keys);
        out
    }

    /// The addresses that are blocked now, in no particular order.
    pub fn list(&mut self) -> (out: Vec<BlockedEntry>)
        requires
            old(self).wf(),
        ensures
            final(self).wf(),
            final(self).clock == old(self).clock,
            exists|at: (Moment, Moment, u64)|
                clock::is_reading(at.0) && clock::is_reading(at.1) && final(self)@ == live(
                    old(self)@,
                    at.0,
                ) && #[trigger] lists(old(self)@, out@, at),
    {
        let now = self.clock.now();
        let reading = self.clock.now();
        let unix_now = clock::unix_now();
        let out = self.list_at(now, reading, unix_now);
        assert(lists(old(self)@, out@, (now, reading, unix_now)));
        out
    }

    /// Sweeps the table, if that is due.
    pub fn maybe_sweep(inner: &mut Inner, now: Moment)
        requires
            old(inner).map.wf(),
        ensures
            final(inner).map.wf(),
            final(inner)@ == swept(old(inner)@, now),
    {
        if now.since(inner.last_cleanup) >= CLEANUP_INTERVAL {
            inner.sweep(now);
        }
    }
}

impl Default for BlockList {
    /// An empty list.
    fn default() -> (l: Self)
        ensures
            l.wf(),
            l@.map == Map::<Seq<char>, Moment>::empty(),
            l@.last_cleanup@ == 0,
    {
        BlockList::new()
    }
}

/// An address is blocked from the moment of the block until its end, and no longer.
pub proof fn law_blocked_until_the_end(
    before: BlockView,
    after: BlockView,
    ip: Seq<char>,
    nanos: u128,
    at: (Moment, Moment, u64),
    r: Result<BlockedEntry, String>,
    now: Moment,
)
    requires
        blocks(before, after, ip, nanos, at, r),
        r is Ok,
    ensures
        addr::normalized(ip) matches Some(key) && (blocked(after, key, now) <==> now@ < at.0@
            + nanos),
{
    let key = addr::normalized(ip).unwrap();
    assert(after.map.dom().contains(key));
}

/// A block, and its end, leave every other address as it was.
pub proof fn law_block_is_of_one_address(
    before: BlockView,
    after: BlockView,
    ip: Seq<char>,
    nanos: u128,
    at: (Moment, Moment, u64),
    r: Result<BlockedEntry, String>,
    other: Seq<char>,
    now: Moment,
)
    requires
        blocks(before, after, ip, nanos, at, r),
        addr::normalized(ip) != Some(other),
    ensures
        blocked(after, other, now) == blocked(before, other, now),
{
    if let Some(key) = addr::normalized(ip) {
        if r is Ok {
            assert(after.map.dom().contains(other) == before.map.dom().contains(other));
            assert(after.map.remove(key).contains_key(other) == after.map.contains_key(other));
            if after.map.contains_key(other) {
                assert(after.map.remove(key)[other] == after.map[other]);
                assert(before.map.remove(key)[other] == before.map[other]);
            }
        }
    }
}

/// Freeing an address leaves every other as it was.
pub proof fn law_freeing_is_of_one_address(
    v: BlockView,
    key: Seq<char>,
    other: Seq<char>,
    now: Moment,
)
    requires
        other != key,
    ensures
        blocked(without(v, key), other, now) == blocked(v, other, now),
{
}

/// An address that was freed is not blocked.
pub proof fn law_freed_is_not_blocked(v: BlockView, key: Seq<char>, now: Moment)
    ensures
        !blocked(without(v, key), key, now),
{
}

/// Neither questions nor sweeps change which addresses are blocked, then or later.
pub proof fn law_questions_change_nothing(
    v: BlockView,
    key: Seq<char>,
    other: Seq<char>,
    now: Moment,
    later: Moment,
)
    requires
        now@ <= later@,
    ensures
        blocked(asked(v, key, now), other, later) == blocked(v, other, later),
        blocked(swept(v, now), other, later) == blocked(v, other, later),
        blocked(live(v, now), other, later) == blocked(v, other, later),
{
}

/// A sweep drops what has expired, asked for or not, and keeps what has not.
pub proof fn law_sweep_drops_the_expired(v: BlockView, key: Seq<char>, now: Moment)
    requires
        clock::elapsed(v.last_cleanup@, now@) >= CLEANUP_INTERVAL,
    ensures
        swept(v, now).map.contains_key(key) <==> blocked(v, key, now),
        swept(v, now).last_cleanup == now,
{
}

/// One call on the list: a block that succeeds, which ends at the moment `until`, a free, a
/// question about an address, or a question for all of them.
pub ghost enum Event {
    Block { ip: Seq<char>, until: Moment },
    Unblock { ip: Seq<char> },
    Ask { ip: Seq<char>, now: Moment },
    List { now: Moment },
}

/// The table after one call.
pub open spec fn after_event(v: BlockView, e: Event) -> BlockView {
    match e {
        Event::Block { ip, until } => match addr::normalized(ip) {
            Some(key) => with_block(v, key, until),
            None => v,
        },
        Event::Unblock { ip } => match addr::normalized(ip) {
            Some(key) => without(v, key),
            None => v,
        },
        Event::Ask { ip, now } => match addr::normalized(ip) {
            Some(key) => asked(v, key, now),
            None => v,
        },
        Event::List { now } => live(v, now),
    }
}

/// The table after some calls.
pub open spec fn after_events(v: BlockView, history: Seq<Event>) -> BlockView
    decreases history.len(),
{
    if history.len() == 0 {
        v
    } else {
        after_event(after_events(v, history.drop_last()), history.last())
    }
}

/// What the last call that blocked or freed an address made of it: the end of its block,
/// or nothing where it was freed. `None` means that there was no such call.
pub open spec fn last_word(history: Seq<Event>, key: Seq<char>) -> Option<Option<Moment>>
    decreases history.len(),
{
    if history.len() == 0 {
        None
    } else {
        match history.last() {
            Event::Block { ip, until } if addr::normalized(ip) == Some(key) => Some(Some(until)),
            Event::Unblock { ip } if addr::normalized(ip) == Some(key) => Some(None),
            _ => last_word(history.drop_last(), key),
        }
    }
}

/// No question of the history was asked after the moment `now`.
pub open spec fn asked_until(history: Seq<Event>, now: Moment) -> bool {
    forall|i: int|
        0 <= i < history.len() ==> match #[trigger] history[i] {
            Event::Ask { now: t, .. } => t@ <= now@,
            Event::List { now: t } => t@ <= now@,
            _ => true,
        }
}

/// After any calls an address is blocked exactly where the last call that blocked or
/// freed it, under whatever text, was a block whose end lies ahead, and that is the end
/// that the list tells. The questions in between make no difference.
pub proof fn law_last_word_counts(
    v: BlockView,
    history: Seq<Event>,
    key: Seq<char>,
    now: Moment,
)
    requires
        asked_until(history, now),
    ensures
        blocked(after_events(v, history), key, now) <==> match last_word(history, key) {
            Some(Some(until)) => is_later(until, now),
            Some(None) => false,
            None => blocked(v, key, now),
        },
        blocked(after_events(v, history), key, now) ==> after_events(v, history).map[key] == (
        match last_word(history, key) {
            Some(Some(until)) => until,
            _ => v.map[key],
        }),
    decreases history.len(),
{
    if history.len() > 0 {
        let front = history.drop_last();
        let before = after_events(v, front);
        assert forall|i: int| 0 <= i < front.len() implies match #[trigger] front[i] {
            Event::Ask { now: t, .. } => t@ <= now@,
            Event::List { now: t } => t@ <= now@,
            _ => true,
        } by {
            assert(front[i] == history[i]);
        }
        law_last_word_counts(v, front, key, now);
        assert(history[history.len() - 1] == history.last());
        match history.last() {
            Event::Ask { ip, now: t } => {
                if let Some(other) = addr::normalized(ip) {
                    law_questions_change_nothing(before, other, key, t, now);
                }
            },
            Event::List { now: t } => {
                law_questions_change_nothing(before, key, key, t, now);
            },
            _ => {},
        }
    }
}

/// A block that succeeds is the call of that kind that its end says.
pub proof fn law_block_is_such_a_call(
    before: BlockView,
    after: BlockView,
    ip: Seq<char>,
    nanos: u128,
    at: (Moment, Moment, u64),
    r: Result<BlockedEntry, String>,
)
    requires
        blocks(before, after, ip, nanos, at, r),
    ensures
        r is Ok ==> exists|until: Moment|
            until@ == at.0@ + nanos && after == #[trigger] after_event(
                before,
                Event::Block { ip, until },
            ),
        r is Err ==> after == before,
{
    if r is Ok {
        let until = after.map[addr::normalized(ip).unwrap()];
        assert(after == after_event(before, Event::Block { ip, until }));
    }
}

/// The list holds exactly the addresses that are blocked: every entry bears the canonical
/// text of an address, under which that address is blocked, and an address that is
/// blocked, whatever its text, has its entry.
pub proof fn law_list_is_the_blocked(
    v: BlockView,
    out: Seq<BlockedEntry>,
    at: (Moment, Moment, u64),
    ip: Seq<char>,
)
    requires
        keys_canonical(v),
        lists(v, out, at),
    ensures
        entry_ips(out).contains(ip) <==> addr::normalized(ip) == Some(ip) && blocked(v, ip, at.0),
        addr::normalized(ip) matches Some(key) ==> (blocked(v, key, at.0) <==> entry_ips(
            out,
        ).contains(key)),
{
    assert(blocked(v, ip, at.0) <==> entry_ips(out).contains(ip));
    if let Some(key) = addr::normalized(ip) {
        assert(blocked(v, key, at.0) <==> entry_ips(out).contains(key));
    }
}

/// Freeing an address twice finds it the first time only.
pub proof fn law_freed_once(v: BlockView, key: Seq<char>)
    ensures
        !without(v, key).map.contains_key(key),
{
}

/// A block of a text that is an address succeeds unless it would end beyond the limit of
/// the clock: the entry tells the canonical text and the UNIX second of the end, and the
/// address is in the table until then. Every other block is refused with its reason and
/// changes nothing.
pub proof fn law_blocks_succeed(
    before: BlockView,
    after: BlockView,
    ip: Seq<char>,
    nanos: u128,
    at: (Moment, Moment, u64),
    r: Result<BlockedEntry, String>,
)
    requires
        blocks(before, after, ip, nanos, at, r),
    ensures
        addr::normalized(ip) is None ==> after == before && r is Err && r->Err_0@ == "无效 IP: "@
            + ip,
        addr::normalized(ip) is Some && at.0@ + nanos > 9_223_372_036_854_775_807_999_999_999
            ==> after == before && r is Err && r->Err_0@
            == "封禁时长过大，无法计算解封时间"@,
        addr::normalized(ip) is Some && at.0@ + nanos <= 9_223_372_036_854_775_807_999_999_999 ==> {
            let key = addr::normalized(ip).unwrap();
            &&& r is Ok
            &&& r->Ok_0.ip@ == key
            &&& r->Ok_0.expires_at == clock::unix_secs_of(at.0@ + nanos, at.1@, at.2)
            &&& after.map.contains_key(key)
            &&& after.map[key]@ == at.0@ + nanos
            &&& after.last_cleanup == before.last_cleanup
        },
{
}

/// An address is blocked where the table holds it with an end that lies ahead; a question
/// leaves every such entry where it is, and a sweep, which is due every thirty seconds,
/// leaves exactly these.
pub proof fn law_table_of_blocks(v: BlockView, key: Seq<char>, other: Seq<char>, now: Moment)
    ensures
        blocked(v, key, now) <==> v.map.contains_key(key) && v.map[key]@ > now@,
        blocked(v, other, now) ==> asked(v, key, now).map.contains_key(other) && asked(
            v,
            key,
            now,
        ).map[other] == v.map[other],
        asked(v, key, now).map.contains_key(other) ==> v.map.contains_key(other),
        live(v, now).map.contains_key(other) <==> blocked(v, other, now),
        blocked(v, other, now) ==> live(v, now).map[other] == v.map[other],
        now@ - v.last_cleanup@ >= 30_000_000_000 ==> asked(v, key, now).last_cleanup == now && (
        asked(v, key, now).map.contains_key(other) <==> blocked(v, other, now)),
        now@ - v.last_cleanup@ < 30_000_000_000 ==> asked(v, key, now).last_cleanup
            == v.last_cleanup && (other != key && v.map.contains_key(other) ==> asked(
            v,
            key,
            now,
        ).map.contains_key(other)),
        without(v, key).map.contains_key(other) <==> v.map.contains_key(other) && other != key,
        with_block(v, key, now).map.contains_key(other) <==> v.map.contains_key(other) || other
            == key,
{
}

/// Every entry of the list tells the UNIX second at which its address is free again.
pub proof fn law_list_tells_the_ends(
    v: BlockView,
    out: Seq<BlockedEntry>,
    at: (Moment, Moment, u64),
    i: int,
)
    requires
        lists(v, out, at),
        0 <= i < out.len(),
    ensures
        v.map.contains_key(out[i].ip@),
        v.map[out[i].ip@]@ > at.0@,
        out[i].expires_at == clock::unix_secs_of(v.map[out[i].ip@]@, at.1@, at.2),
        forall|j: int| 0 <= j < out.len() && j != i ==> (#[trigger] out[j]).ip@ != out[i].ip@,
{
    assert(entry_ips(out)[i] == out[i].ip@);
    assert(entry_ips(out).contains(out[i].ip@));
    assert(blocked(v, out[i].ip@, at.0));
    assert forall|j: int| 0 <= j < out.len() && j != i implies (#[trigger] out[j]).ip@
        != out[i].ip@ by {
        assert(entry_ips(out)[j] == out[j].ip@);
    }
}

} // verus!
