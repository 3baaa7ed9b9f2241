//! Search statistics shared by the worker threads: one counter of tested
//! candidates, then one counter per pattern length reached.
use std::sync::atomic::AtomicU64;
use std::sync::atomic::Ordering;
use std::time::Duration;
use std::time::Instant;
use vstd::prelude::*;

verus! {

#[verifier::external_type_specification]
#[verifier::external_body]
pub struct ExInstant(Instant);

/// `Instant::now`: the current time; nothing is claimed of its value.
#[verifier::external_body]
fn instant_now() -> Instant {
    Instant::now()
}

/// `Instant::elapsed`: the time since `start`; nothing is claimed of its value.
#[verifier::external_body]
fn instant_elapsed(start: &Instant) -> Duration {
    start.elapsed()
}

/// `Duration::as_secs`: the whole seconds of a duration; nothing is claimed
/// of its value, as the duration is opaque here.
#[verifier::external_body]
fn duration_secs(d: &Duration) -> u64 {
    d.as_secs()
}

/// Thread-safe statistics using atomics: workers call `increment`, the
/// statistics thread reads the counters.  `counts[0]` counts tested
/// candidates and `counts[i]` candidates whose first `i` members passed.
pub struct Stats {
    counts: Vec<AtomicU64>,
    start: Instant,
    pattern_len: usize,
}

impl Stats {
    /// The number of counters.
    pub closed spec fn num_counters(&self) -> nat {
        self.counts@.len()
    }

    /// The pattern length the statistics were made for.
    pub closed spec fn pattern_len_spec(&self) -> nat {
        self.pattern_len as nat
    }

    /// Statistics for a pattern of `pattern_len` elements: `pattern_len + 1`
    /// counters, all starting at zero, and the clock started now.
    pub fn new(pattern_len: usize) -> (stats: Self)
        requires
            pattern_len < usize::MAX,
        ensures
            stats.num_counters() == pattern_len + 1,
            stats.pattern_len_spec() == pattern_len,
    {
        let mut counts: Vec<AtomicU64> = Vec::new();
        let mut i: usize = 0;
        while i <= pattern_len
            invariant
                pattern_len < usize::MAX,
                i <= pattern_len + 1,
                counts@.len() == i,
            decreases pattern_len + 1 - i,
        {
            counts.push(AtomicU64::new(0));
            i = i + 1;
        }
        Stats { counts, start: instant_now(), pattern_len }
    }

    /// Add one to counter `index`.  The counters are shared between threads,
    /// so nothing is claimed of the value that another call reads later.
    pub fn increment(&self, index: usize)
        requires
            index < self.num_counters(),
    {
        self.counts[index].fetch_add(1, Ordering::Relaxed);
    }

    /// The current value of counter `index` (shared between threads, so any
    /// value may come back).
    pub fn count(&self, index: usize) -> u64
        requires
            index < self.num_counters(),
    {
        self.counts[index].load(Ordering::Relaxed)
    }

    /// Whole seconds since the statistics were created.
    pub fn elapsed_secs(&self) -> u64 {
        duration_secs(&instant_elapsed(&self.start))
    }

    /// The pattern length the statistics were made for.
    pub fn pattern_len(&self) -> (n: usize)
        ensures
            n == self.pattern_len_spec(),
    {
        self.pattern_len
    }

    /// Tested candidates per second since the start: the first counter over
    /// the elapsed whole seconds (see `counts_per_second`).
    pub fn cps(&self) -> u64
        requires
            self.num_counters() >= 1,
    {
        let elapsed = self.elapsed_secs();
        let tested = self.count(0);
        counts_per_second(tested, elapsed)
    }
}

/// `count / elapsed` rounded down, or `0` before the first whole second.
pub fn counts_per_second(count: u64, elapsed: u64) -> (r: u64)
    ensures
        r == (if elapsed > 0 {
            count / elapsed
        } else {
            0
        }),
{
    if elapsed > 0 {
        count / elapsed
    } else {
        0
    }
}

/// The unit in which an estimated time is shown.
#[derive(PartialEq, Eq, Structural, Clone, Copy, Debug)]
pub enum EtaUnit {
    Seconds,
    Minutes,
    Hours,
    Days,
    Years,
}

/// How `eta_display` shows `eta` seconds: a whole number of seconds, minutes
/// (60 s), hours (3600 s), days (86400 s) or mean Gregorian years
/// (31556952 s), chosen by the size of `eta`.
pub open spec fn eta_display_spec(eta: u64) -> (u64, EtaUnit) {
    if eta <= 59 {
        (eta, EtaUnit::Seconds)
    } else if eta <= 3599 {
        ((eta / 60) as u64, EtaUnit::Minutes)
    } else if eta <= 86399 {
        ((eta / 3600) as u64, EtaUnit::Hours)
    } else if eta <= 31556951 {
        ((eta / 86400) as u64, EtaUnit::Days)
    } else {
        ((eta / 31556952) as u64, EtaUnit::Years)
    }
}

/// How an estimated time of `eta` seconds is shown: the whole number of
/// seconds below a minute, of minutes below an hour, of hours below a day,
/// of days below a year, and of years beyond.
pub fn eta_display(eta: u64) -> (r: (u64, EtaUnit))
    ensures
        r == eta_display_spec(eta),
{
    if eta <= 59 {
        (eta, EtaUnit::Seconds)
    } else if eta <= 3599 {
        (eta / 60, EtaUnit::Minutes)
    } else if eta <= 86399 {
        (eta / 3600, EtaUnit::Hours)
    } else if eta <= 31556951 {
        (eta / 86400, EtaUnit::Days)
    } else {
        (eta / 31556952, EtaUnit::Years)
    }
}

} // verus!
