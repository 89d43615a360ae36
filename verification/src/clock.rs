//! Points in time.
//!
//! A [`Moment`] is a reading of a monotonic clock, counted in nanoseconds from the
//! moment at which its [`Clock`] was started. The logic of the crate takes moments
//! as arguments; only the functions at its edge read a clock.

use std::time::{Duration, Instant, SystemTimeError};
use vstd::prelude::*;

verus! {

/// `std::time::Instant`, carried as it is.
#[verifier::external_type_specification]
#[verifier::external_body]
pub struct ExInstant(Instant);

/// `std::time::SystemTimeError`, carried as it is.
#[verifier::external_type_specification]
#[verifier::external_body]
pub struct ExSystemTimeError(SystemTimeError);

/// The length of a `Duration` in nanoseconds, as `Duration::as_nanos` gives it.
pub uninterp spec fn duration_nanos(d: Duration) -> u128;

/// `Duration::as_nanos` gives the whole length of the duration, which holds at most
/// `u64::MAX` seconds and less than one more.
pub assume_specification[ Duration::as_nanos ](d: &Duration) -> (n: u128)
    ensures
        n == duration_nanos(*d),
        n < (u64::MAX as int + 1) * 1_000_000_000,
;

/// `Duration::as_secs` gives the number of whole seconds in the duration.
pub assume_specification[ Duration::as_secs ](d: &Duration) -> (n: u64)
    ensures
        n as int == duration_nanos(*d) as int / 1_000_000_000,
;

/// `Duration::from_secs` makes a duration of so many whole seconds.
pub assume_specification[ Duration::from_secs ](secs: u64) -> (d: Duration)
    ensures
        duration_nanos(d) == secs * 1_000_000_000,
;

/// `Instant::now` reads the monotonic clock. What it returns depends on the time of
/// the call alone, and nothing is stated of it.
pub assume_specification[ Instant::now ]() -> (i: Instant);

/// `Instant::elapsed` gives the time from that instant to the present. It depends on
/// the time of the call, and nothing is stated of it.
pub assume_specification[ Instant::elapsed ](i: &Instant) -> (d: Duration);

/// Calls `SystemTime::elapsed` on the UNIX epoch. What it returns depends on the
/// system clock alone, and nothing is stated of it.
#[verifier::external_body]
fn since_unix_epoch() -> (r: Result<Duration, SystemTimeError>) {
    std::time::SystemTime::UNIX_EPOCH.elapsed()
}

/// Nanoseconds in a second.
pub const NANOS_PER_SEC: u128 = 1_000_000_000;

/// The largest count of nanoseconds that a moment can hold: `i64::MAX` seconds and a
/// fraction.
pub const MAX_MOMENT: i128 = 9_223_372_036_854_775_807_999_999_999;

/// The smallest count of nanoseconds that a moment can hold: `i64::MIN` seconds.
pub const MIN_MOMENT: i128 = -9_223_372_036_854_775_808_000_000_000;

/// A point on a monotonic clock.
#[derive(Clone, Copy, Debug)]
pub struct Moment {
    nanos: i128,
}

impl View for Moment {
    type V = int;

    closed spec fn view(&self) -> int {
        self.nanos as int
    }
}

impl Moment {
    #[verifier::type_invariant]
    spec fn in_range(self) -> bool {
        MIN_MOMENT <= self.nanos <= MAX_MOMENT
    }

    /// Every moment lies between the two limits.
    pub fn nanos(self) -> (n: i128)
        ensures
            n == self@,
            MIN_MOMENT <= n <= MAX_MOMENT,
    {
        proof {
            use_type_invariant(&self);
        }
        self.nanos
    }

    /// The moment `nanos` nanoseconds after the start of the clock, if it lies between
    /// the limits.
    pub fn from_nanos(nanos: i128) -> (r: Option<Moment>)
        ensures
            match r {
                Some(m) => m@ == nanos && MIN_MOMENT <= nanos <= MAX_MOMENT,
                None => !(MIN_MOMENT <= nanos <= MAX_MOMENT),
            },
    {
        if MIN_MOMENT <= nanos && nanos <= MAX_MOMENT {
            Some(Moment { nanos })
        } else {
            None
        }
    }

    /// The moment at which a clock starts.
    pub fn start() -> (m: Moment)
        ensures
            m@ == 0,
    {
        Moment { nanos: 0 }
    }

    /// The moment on a clock that was started so long ago.
    pub fn after_start(elapsed: Duration) -> (m: Moment)
        ensures
            m@ == nanos_from_start(elapsed),
    {
        let n = elapsed.as_nanos();
        if n <= MAX_MOMENT as u128 {
            Moment { nanos: n as i128 }
        } else {
            Moment { nanos: MAX_MOMENT }
        }
    }

    /// The moment `d` after this one; `None` where it would lie beyond the limit.
    pub fn checked_add(self, d: Duration) -> (r: Option<Moment>)
        ensures
            match r {
                Some(m) => m@ == self@ + duration_nanos(d) && m@ <= MAX_MOMENT,
                None => self@ + duration_nanos(d) > MAX_MOMENT,
            },
    {
        proof {
            use_type_invariant(&self);
        }
        let n = d.as_nanos();
        Moment::from_nanos(self.nanos + n as i128)
    }

    /// The moment `n` nanoseconds before this one; `None` where it would lie before the
    /// limit.
    pub fn checked_sub_nanos(self, n: u64) -> (r: Option<Moment>)
        ensures
            match r {
                Some(m) => m@ == self@ - n,
                None => self@ - n < MIN_MOMENT,
            },
    {
        proof {
            use_type_invariant(&self);
        }
        Moment::from_nanos(self.nanos - n as i128)
    }

    /// The nanoseconds from `earlier` to this moment; nought where `earlier` is later.
    pub fn since(self, earlier: Moment) -> (n: u128)
        ensures
            n == elapsed(earlier@, self@),
            n <= MAX_MOMENT - MIN_MOMENT,
    {
        proof {
            use_type_invariant(&self);
            use_type_invariant(&earlier);
        }
        if self.nanos >= earlier.nanos {
            (self.nanos - earlier.nanos) as u128
        } else {
            0
        }
    }

    /// Whether this moment is later than `other`.
    pub fn is_after(self, other: Moment) -> (r: bool)
        ensures
            r == (self@ > other@),
    {
        self.nanos > other.nanos
    }
}

/// The nanoseconds on a clock that was started so long ago. A clock that has reached
/// the limit stays there.
pub open spec fn nanos_from_start(elapsed: Duration) -> int {
    if duration_nanos(elapsed) <= MAX_MOMENT {
        duration_nanos(elapsed) as int
    } else {
        MAX_MOMENT as int
    }
}

/// The nanoseconds from `earlier` to `later`, nought where they are the other way
/// round.
pub open spec fn elapsed(earlier: int, later: int) -> nat {
    if later >= earlier {
        (later - earlier) as nat
    } else {
        0
    }
}

/// The moment can be read off a clock: it does not lie before the start, nor beyond the
/// limit.
pub open spec fn is_reading(m: Moment) -> bool {
    0 <= m@ <= MAX_MOMENT
}

/// A monotonic clock, started once.
#[derive(Clone, Copy, Debug)]
pub struct Clock {
    origin: Instant,
}

impl Clock {
    /// A clock that starts at the present moment.
    pub fn start() -> (c: Clock) {
        Clock { origin: Instant::now() }
    }

    /// The present moment. It depends on the time of the call, and never lies before the
    /// start of the clock: it is what the time since then, whatever that is, makes it.
    pub fn now(&self) -> (m: Moment)
        ensures
            is_reading(m),
            exists|elapsed: Duration| m@ == #[trigger] nanos_from_start(elapsed),
    {
        let elapsed = self.origin.elapsed();
        Moment::after_start(elapsed)
    }
}

/// The present time in whole seconds since the UNIX epoch; nought where the system
/// clock stands before it. It depends on the time of the call: it is what the reading
/// of the system clock, whatever that is, makes it.
pub fn unix_now() -> (secs: u64)
    ensures
        exists|reading: Result<Duration, SystemTimeError>| secs == #[trigger] epoch_secs(reading),
{
    let reading = since_unix_epoch();
    let ghost read = reading;
    let secs = unix_secs_in(reading);
    assert(secs == epoch_secs(read));
    secs
}

/// The whole seconds since the UNIX epoch, by a reading of the system clock; nought
/// where the clock stands before it.
pub open spec fn epoch_secs(reading: Result<Duration, SystemTimeError>) -> u64 {
    match reading {
        Ok(d) => (duration_nanos(d) as int / 1_000_000_000) as u64,
        Err(_) => 0,
    }
}

/// The whole seconds since the UNIX epoch, by a reading of the system clock.
pub fn unix_secs_in(reading: Result<Duration, SystemTimeError>) -> (secs: u64)
    ensures
        secs == epoch_secs(reading),
{
    match reading {
        Ok(d) => d.as_secs(),
        Err(_) => 0,
    }
}

/// The UNIX second at which a clock that reads `now`, at the UNIX second `unix_now`,
/// will read `at`. A moment that has passed counts as `now`.
pub open spec fn unix_secs_of(at: int, now: int, unix_now: u64) -> u64 {
    let secs = unix_now + elapsed(now, at) / 1_000_000_000;
    if secs <= u64::MAX {
        secs as u64
    } else {
        u64::MAX
    }
}

/// Turns a moment into UNIX seconds.
pub fn unix_secs(at: Moment, now: Moment, unix_now: u64) -> (secs: u64)
    ensures
        secs == unix_secs_of(at@, now@, unix_now),
{
    let left = at.since(now) / NANOS_PER_SEC;
    unix_now.saturating_add(left as u64)
}

/// Time that has gone is the difference of the two moments, and nought where the later
/// one comes first.
pub proof fn law_time_that_has_gone(earlier: int, later: int)
    ensures
        later >= earlier ==> elapsed(earlier, later) == later - earlier,
        later <= earlier ==> elapsed(earlier, later) == 0,
{
}

/// A moment ahead is told as the present UNIX second and the whole seconds up to it; one
/// that has gone as the present, and one beyond the largest number as that number.
pub proof fn law_unix_seconds(at: int, now: int, unix_now: u64)
    ensures
        at <= now ==> unix_secs_of(at, now, unix_now) == unix_now,
        at >= now && unix_now + (at - now) / 1_000_000_000 <= 0xffff_ffff_ffff_ffff ==> unix_secs_of(
            at,
            now,
            unix_now,
        ) == unix_now + (at - now) / 1_000_000_000,
        at >= now && unix_now + (at - now) / 1_000_000_000 > 0xffff_ffff_ffff_ffff ==> unix_secs_of(
            at,
            now,
            unix_now,
        ) == 0xffff_ffff_ffff_ffff,
{
}

/// A clock tells the nanoseconds since its start, and the system clock whole seconds
/// since the epoch, or nought where it stands before it.
pub proof fn law_readings(d: Duration, e: SystemTimeError)
    requires
        duration_nanos(d) < 0x1_0000_0000_0000_0000 * 1_000_000_000,
    ensures
        duration_nanos(d) < 9_223_372_036_854_775_808_000_000_000 ==> nanos_from_start(d)
            == duration_nanos(d),
        epoch_secs(Ok(d)) == duration_nanos(d) as int / 1_000_000_000,
        epoch_secs(Err(e)) == 0,
{
}

} // verus!
