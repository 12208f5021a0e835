//! When to announce again, when to ask loco-server again, and how long to sleep.

use vstd::prelude::*;

use crate::bigfred_watch::{Program, ProgramView};
use crate::config::RetryConfig;
use crate::run::{backoff, bigfred_backoff_ms};
use crate::text::lemma_filter_push;
use crate::time::{after_ms, deadline, ms_left, ms_until, NANOS_PER_MS};
use crate::value::views;

verus! {

/// The larger of two numbers.
pub open spec fn at_least(n: u64, low: u64) -> u64 {
    if n < low {
        low
    } else {
        n
    }
}

/// The larger of two numbers.
pub fn raise(n: u64, low: u64) -> (r: u64)
    ensures
        r == at_least(n, low),
{
    if n < low {
        low
    } else {
        n
    }
}

/// When everything is to be announced again.
#[derive(Debug)]
pub struct Announcer {
    /// Whether it is due.
    pub force: bool,
    /// When it is due at the latest.
    pub next_periodic: u128,
    /// When it is due after the last change.
    pub bursts: Vec<u128>,
}

/// What an [`Announcer`] stands for.
#[verifier::ext_equal]
pub struct AnnouncerView {
    pub force: bool,
    pub next_periodic: u128,
    pub bursts: Seq<u128>,
}

impl View for Announcer {
    type V = AnnouncerView;

    open spec fn view(&self) -> AnnouncerView {
        AnnouncerView {
            force: self.force,
            next_periodic: self.next_periodic,
            bursts: self.bursts@,
        }
    }
}

/// The test for a deadline that lies ahead.
pub open spec fn ahead(now: u64) -> spec_fn(u128) -> bool {
    |t: u128| now < t
}

impl AnnouncerView {
    /// Whether the period has passed.
    pub open spec fn period_over(self, now: u64) -> bool {
        now >= self.next_periodic
    }

    /// Whether a deadline of a burst has passed.
    pub open spec fn burst_due(self, now: u64) -> bool {
        exists|i: int| 0 <= i < self.bursts.len() && #[trigger] self.bursts[i] <= now
    }

    /// The state after a look at the clock.
    pub open spec fn ticked(self, now: u64, period_ms: u64) -> AnnouncerView {
        AnnouncerView {
            force: self.force || self.period_over(now) || self.burst_due(now),
            next_periodic: if self.period_over(now) {
                after_ms(now, at_least(period_ms, 1000)) as u128
            } else {
                self.next_periodic
            },
            bursts: self.bursts.filter(ahead(now)),
        }
    }
}

/// Filtering gives as many exactly if nothing is dropped.
proof fn lemma_filter_len<A>(s: Seq<A>, keep: spec_fn(A) -> bool)
    ensures
        s.filter(keep).len() <= s.len(),
        s.filter(keep).len() == s.len() <==> forall|i: int|
            0 <= i < s.len() ==> keep(#[trigger] s[i]),
    decreases s.len(),
{
    reveal(Seq::filter);
    if s.len() > 0 {
        let d = s.drop_last();
        lemma_filter_len(d, keep);
        if s.filter(keep).len() == s.len() {
            assert forall|i: int| 0 <= i < s.len() implies keep(#[trigger] s[i]) by {
                if i < s.len() - 1 {
                    assert(d[i] == s[i]);
                }
            }
        }
        if forall|i: int| 0 <= i < s.len() ==> keep(#[trigger] s[i]) {
            assert(keep(s[s.len() - 1]));
            assert forall|i: int| 0 <= i < d.len() implies keep(#[trigger] d[i]) by {
                assert(d[i] == s[i]);
            }
        }
    }
}

impl Announcer {
    /// Looks at the clock: the period and the deadlines of a burst that have
    /// passed make an announcement due.
    pub fn tick(&mut self, now: u64, period_ms: u64)
        ensures
            final(self)@ == old(self)@.ticked(now, period_ms),
    {
        let ghost start = self@;
        if now as u128 >= self.next_periodic {
            self.force = true;
            self.next_periodic = deadline(now, raise(period_ms, 1000));
        }
        let ghost keep = ahead(now);
        let mut left: Vec<u128> = Vec::new();
        let n: usize = self.bursts.len();
        let mut i: usize = 0;
        proof {
            reveal(Seq::filter);
            assert(left@ =~= start.bursts.take(0).filter(keep));
        }
        while i < n
            invariant
                n == self.bursts@.len(),
                i <= n,
                self.bursts@ == start.bursts,
                keep == ahead(now),
                left@ == start.bursts.take(i as int).filter(keep),
            decreases n - i,
        {
            proof {
                let x = start.bursts[i as int];
                assert(start.bursts.take(i + 1) =~= start.bursts.take(i as int).push(x));
                lemma_filter_push(start.bursts.take(i as int), x, keep);
            }
            if (now as u128) < self.bursts[i] {
                left.push(self.bursts[i]);
            }
            i += 1;
        }
        proof {
            assert(start.bursts.take(i as int) =~= start.bursts);
            lemma_filter_len(start.bursts, keep);
        }
        if left.len() != n {
            self.force = true;
        }
        self.bursts = left;
    }
}

/// Once a look at the clock has made an announcement due for the period, the
/// next is due a period later and not before.
pub proof fn period_is_kept(s: AnnouncerView, now: u64, later: u64, period_ms: u64)
    requires
        s.period_over(now),
    ensures
        s.ticked(now, period_ms).force,
        s.ticked(now, period_ms).period_over(later) <==> later >= after_ms(
            now,
            at_least(period_ms, 1000),
        ),
{
}

/// What loco-server last said, and when to ask again.
#[derive(Debug)]
pub struct Poller {
    /// The programs last reported, unless withdrawn.
    pub programs: Option<Vec<Program>>,
    /// Since when reports have been missing.
    pub stale_since: Option<u64>,
    /// Failures since the last report.
    pub failures: u32,
    /// When to ask again.
    pub next_probe: u128,
}

/// What a [`Poller`] stands for.
#[verifier::ext_equal]
pub struct PollerView {
    pub programs: Option<Seq<ProgramView>>,
    pub stale_since: Option<u64>,
    pub failures: u32,
    pub next_probe: u128,
}

impl View for Poller {
    type V = PollerView;

    open spec fn view(&self) -> PollerView {
        PollerView {
            programs: match self.programs {
                Some(p) => Some(views(p@)),
                None => None,
            },
            stale_since: self.stale_since,
            failures: self.failures,
            next_probe: self.next_probe,
        }
    }
}

/// Whether so many milliseconds lie between two clock readings.
pub open spec fn passed(from: u64, now: u64, ms: u64) -> bool {
    if now < from {
        ms == 0
    } else {
        now - from >= ms * NANOS_PER_MS
    }
}

impl PollerView {
    /// Whether it is time to ask.
    pub open spec fn due(self, now: u64) -> bool {
        now >= self.next_probe
    }

    /// The state after a report.
    pub open spec fn reported(
        self,
        programs: Seq<ProgramView>,
        now: u64,
        retry: RetryConfig,
    ) -> PollerView {
        PollerView {
            programs: Some(programs),
            stale_since: None,
            failures: 0,
            next_probe: after_ms(now, at_least(retry.poll_ms, 500)) as u128,
        }
    }

    /// Since when reports are missing, after one more failure.
    pub open spec fn stale_from(self, now: u64) -> u64 {
        match self.stale_since {
            Some(t) => t,
            None => now,
        }
    }

    /// Whether a failure makes the programs be withdrawn: reports have been
    /// missing for the configured time.
    pub open spec fn withdraws(self, now: u64, retry: RetryConfig) -> bool {
        self.programs is Some && passed(
            self.stale_from(now),
            now,
            at_least(retry.bigfred_ms, 500),
        )
    }

    /// The state after a failure.
    pub open spec fn failed(self, now: u64, retry: RetryConfig) -> PollerView {
        PollerView {
            programs: if self.withdraws(now, retry) {
                None
            } else {
                self.programs
            },
            stale_since: if self.programs is None {
                self.stale_since
            } else if self.withdraws(now, retry) {
                None
            } else {
                Some(self.stale_from(now))
            },
            failures: if self.failures == u32::MAX {
                u32::MAX
            } else {
                (self.failures + 1) as u32
            },
            next_probe: (now + backoff(self.failures as nat, retry.bigfred_ms)
                * NANOS_PER_MS as int) as u128,
        }
    }
}

impl Poller {
    /// Nothing was reported yet; ask at once.
    pub fn new(now: u64) -> (r: Self)
        ensures
            r@ == (PollerView {
                programs: None,
                stale_since: None,
                failures: 0,
                next_probe: now as u128,
            }),
    {
        Poller { programs: None, stale_since: None, failures: 0, next_probe: now as u128 }
    }

    /// Whether it is time to ask.
    pub fn due(&self, now: u64) -> (r: bool)
        ensures
            r == self@.due(now),
    {
        now as u128 >= self.next_probe
    }

    /// Takes in a report.
    pub fn report(&mut self, programs: Vec<Program>, now: u64, retry: RetryConfig)
        ensures
            final(self)@ == old(self)@.reported(views(programs@), now, retry),
    {
        self.programs = Some(programs);
        self.stale_since = None;
        self.failures = 0;
        self.next_probe = deadline(now, raise(retry.poll_ms, 500));
    }

    /// Whether a failure now makes the programs be withdrawn.
    pub fn withdraws(&self, now: u64, retry: RetryConfig) -> (r: bool)
        ensures
            r == self@.withdraws(now, retry),
    {
        if self.programs.is_none() {
            return false;
        }
        let from: u64 = match self.stale_since {
            Some(t) => t,
            None => now,
        };
        let limit: u64 = raise(retry.bigfred_ms, 500);
        now >= from && (now - from) as u128 >= limit as u128 * NANOS_PER_MS
    }

    /// Takes in that loco-server did not answer; returns whether the programs
    /// were withdrawn.
    pub fn fail(&mut self, now: u64, retry: RetryConfig) -> (r: bool)
        ensures
            final(self)@ == old(self)@.failed(now, retry),
            r == old(self)@.withdraws(now, retry),
    {
        let withdrawn = self.withdraws(now, retry);
        if withdrawn {
            self.programs = None;
            self.stale_since = None;
        } else if self.programs.is_some() && self.stale_since.is_none() {
            self.stale_since = Some(now);
        }
        let wait: u64 = bigfred_backoff_ms(self.failures, retry.bigfred_ms);
        self.failures = self.failures.saturating_add(1);
        self.next_probe = deadline(now, wait);
        withdrawn
    }
}

/// The last good programs are kept while loco-server is silent, until it has
/// been silent for the configured time.
pub proof fn programs_outlive_silence(s: PollerView, first: u64, later: u64, retry: RetryConfig)
    requires
        s.programs is Some,
        s.stale_since is None,
        first <= later,
    ensures
        ({
            let limit = at_least(retry.bigfred_ms, 500);
            let a = s.failed(first, retry);
            let b = a.failed(later, retry);
            &&& a.programs == s.programs
            &&& b.programs == (if later - first >= limit * NANOS_PER_MS {
                None
            } else {
                s.programs
            })
        }),
{
}

/// How long the main loop sleeps at most, in milliseconds: until the first of
/// the things that are due, and at least a fifth of a second.
pub open spec fn sleep_for(
    retry: RetryConfig,
    polling: bool,
    next_probe: u128,
    announcer: AnnouncerView,
    next_check: u128,
    now: u64,
) -> int {
    let idle = if polling {
        lesser(ms_left(next_probe as int, now), retry.iface_ms as int)
    } else {
        lesser(retry.iface_ms as int, retry.mdns_ms as int)
    };
    let ms = lesser(
        lesser(lesser(idle, ms_left(announcer.next_periodic as int, now)), first_burst(
            announcer.bursts,
            now,
        )),
        ms_left(next_check as int, now),
    );
    if ms < 200 {
        200
    } else {
        ms
    }
}

/// The smaller of two numbers.
pub open spec fn lesser(a: int, b: int) -> int {
    if a < b {
        a
    } else {
        b
    }
}

/// Milliseconds until the first of several deadlines, a very long time where
/// there is none.
pub open spec fn first_burst(bursts: Seq<u128>, now: u64) -> int
    decreases bursts.len(),
{
    if bursts.len() == 0 {
        u64::MAX as int
    } else {
        lesser(first_burst(bursts.drop_last(), now), ms_left(bursts.last() as int, now))
    }
}

/// The smaller of two numbers.
fn smaller(a: u64, b: u64) -> (r: u64)
    ensures
        r == lesser(a as int, b as int),
{
    if a < b {
        a
    } else {
        b
    }
}

/// How long the main loop sleeps at most, in milliseconds.
pub fn sleep_ms(
    retry: RetryConfig,
    polling: bool,
    next_probe: u128,
    announcer: &Announcer,
    next_check: u128,
    now: u64,
) -> (r: u64)
    ensures
        r == sleep_for(retry, polling, next_probe, announcer@, next_check, now),
{
    let idle: u64 = if polling {
        smaller(ms_until(next_probe, now), retry.iface_ms)
    } else {
        smaller(retry.iface_ms, retry.mdns_ms)
    };
    let mut burst: u64 = u64::MAX;
    let mut i: usize = 0;
    while i < announcer.bursts.len()
        invariant
            i <= announcer.bursts@.len(),
            burst == first_burst(announcer.bursts@.take(i as int), now),
        decreases announcer.bursts@.len() - i,
    {
        proof {
            assert(announcer.bursts@.take(i + 1).drop_last() =~= announcer.bursts@.take(i as int));
        }
        burst = smaller(burst, ms_until(announcer.bursts[i], now));
        i += 1;
    }
    proof {
        assert(announcer.bursts@.take(i as int) =~= announcer.bursts@);
    }
    let ms: u64 = smaller(
        smaller(smaller(idle, ms_until(announcer.next_periodic, now)), burst),
        ms_until(next_check, now),
    );
    if ms < 200 {
        200
    } else {
        ms
    }
}

/// The main loop never oversleeps: it wakes for the announcement, the check and
/// the next question that are due first, unless that is within a fifth of a
/// second.
pub proof fn never_oversleeps(
    retry: RetryConfig,
    polling: bool,
    next_probe: u128,
    announcer: AnnouncerView,
    next_check: u128,
    now: u64,
)
    ensures
        ({
            let ms = sleep_for(retry, polling, next_probe, announcer, next_check, now);
            &&& ms >= 200
            &&& ms > 200 ==> {
                &&& ms <= ms_left(announcer.next_periodic as int, now)
                &&& ms <= ms_left(next_check as int, now)
                &&& polling ==> ms <= ms_left(next_probe as int, now)
                &&& ms <= retry.iface_ms
            }
        }),
{
}

/// The main loop does not wake early: it sleeps for a time at least as long as
/// everything that is due leaves it, and until the first announcement of a
/// burst at the latest. With nothing to ask it looks at the interfaces and the
/// mDNS daemon as often as configured.
pub proof fn sleep_is_as_long_as_it_may(
    retry: RetryConfig,
    polling: bool,
    next_probe: u128,
    announcer: AnnouncerView,
    next_check: u128,
    now: u64,
    least: int,
    i: int,
)
    requires
        200 <= least <= u64::MAX,
        now + least * 1_000_000 <= announcer.next_periodic,
        now + least * 1_000_000 <= next_check,
        least <= retry.iface_ms,
        polling ==> now + least * 1_000_000 <= next_probe,
        !polling ==> least <= retry.mdns_ms,
        forall|k: int|
            0 <= k < announcer.bursts.len() ==> now + least * 1_000_000
                <= #[trigger] announcer.bursts[k],
    ensures
        sleep_for(retry, polling, next_probe, announcer, next_check, now) >= least,
        0 <= i < announcer.bursts.len() && sleep_for(
            retry,
            polling,
            next_probe,
            announcer,
            next_check,
            now,
        ) > 200 ==> now + 1_000_000 * sleep_for(
            retry,
            polling,
            next_probe,
            announcer,
            next_check,
            now,
        ) <= announcer.bursts[i],
{
    lemma_first_burst(announcer.bursts, now, least, i);
}

/// The first deadline of a burst is no later than any and no earlier than all.
proof fn lemma_first_burst(bursts: Seq<u128>, now: u64, least: int, i: int)
    requires
        0 <= least <= u64::MAX,
        forall|k: int|
            0 <= k < bursts.len() ==> now + least * 1_000_000 <= #[trigger] bursts[k],
    ensures
        first_burst(bursts, now) >= least,
        0 <= i < bursts.len() ==> first_burst(bursts, now) <= ms_left(bursts[i] as int, now),
    decreases bursts.len(),
{
    if bursts.len() > 0 {
        let d = bursts.drop_last();
        let n = bursts.len() - 1;
        assert forall|k: int| 0 <= k < d.len() implies now + least * 1_000_000
            <= #[trigger] d[k] by {
            assert(d[k] == bursts[k]);
        }
        assert(now + least * 1_000_000 <= bursts[n]);
        lemma_first_burst(d, now, least, i);
        if 0 <= i < n {
            assert(d[i] == bursts[i]);
        }
    }
}

/// Whatever is due leaves the main loop time only until then, but for a fifth of
/// a second.
pub proof fn bursts_end_the_sleep(
    retry: RetryConfig,
    polling: bool,
    next_probe: u128,
    announcer: AnnouncerView,
    next_check: u128,
    now: u64,
    i: int,
)
    requires
        0 <= i < announcer.bursts.len(),
    ensures
        ({
            let ms = sleep_for(retry, polling, next_probe, announcer, next_check, now);
            &&& ms > 200 ==> now + ms * 1_000_000 <= announcer.bursts[i]
            &&& ms > 200 ==> now + ms * 1_000_000 <= announcer.next_periodic
            &&& ms > 200 ==> now + ms * 1_000_000 <= next_check
            &&& ms > 200 && polling ==> now + ms * 1_000_000 <= next_probe
            &&& ms > 200 && !polling ==> ms <= retry.mdns_ms
            &&& ms > 200 ==> ms <= retry.iface_ms
        }),
{
    lemma_burst_bounds(announcer.bursts, now, i);
}

/// The first deadline of a burst is no later than any.
proof fn lemma_burst_bounds(bursts: Seq<u128>, now: u64, i: int)
    requires
        0 <= i < bursts.len(),
    ensures
        first_burst(bursts, now) <= ms_left(bursts[i] as int, now),
    decreases bursts.len(),
{
    let d = bursts.drop_last();
    if i < d.len() {
        lemma_burst_bounds(d, now, i);
        assert(d[i] == bursts[i]);
    }
}

/// A report replaces the programs, ends the silence and the backoff, and is
/// asked for again after the configured time, of at least half a second.
pub proof fn reports_are_taken_in(
    s: PollerView,
    programs: Seq<ProgramView>,
    now: u64,
    retry: RetryConfig,
    later: u64,
)
    ensures
        ({
            let t = s.reported(programs, now, retry);
            let wait = if retry.poll_ms < 500 {
                500
            } else {
                retry.poll_ms
            };
            &&& t.programs == Some(programs)
            &&& t.stale_since is None
            &&& t.failures == 0
            &&& t.due(later) <==> later >= now + wait * 1_000_000
            &&& t.failed(later, retry).programs == t.programs
        }),
{
}

/// A failure keeps what was reported, notes since when reports are missing, and
/// is followed by another question after the backoff; the failures are counted.
/// The programs are withdrawn once reports have been missing for the configured
/// time, of at least half a second, and not before.
pub proof fn failures_are_counted(s: PollerView, now: u64, retry: RetryConfig, later: u64)
    ensures
        ({
            let t = s.failed(now, retry);
            let limit = if retry.bigfred_ms < 500 {
                500
            } else {
                retry.bigfred_ms
            };
            &&& s.failures < u32::MAX ==> t.failures == s.failures + 1
            &&& t.due(later) <==> later >= now + backoff(s.failures as nat, retry.bigfred_ms)
                * 1_000_000
            &&& s.programs is Some && s.stale_since is None ==> t.programs == s.programs
                && t.stale_since == Some(now)
            &&& s.programs is Some && s.stale_since is Some ==> {
                &&& t.programs is None <==> now - s.stale_since->0 >= limit * 1_000_000
                &&& t.programs is Some ==> t.programs == s.programs && t.stale_since
                    == s.stale_since
            }
            &&& s.programs is None ==> t.programs is None
        }),
{
    crate::run::backoff_grows_to_cap(s.failures as nat, retry.bigfred_ms);
}

} // verus!
