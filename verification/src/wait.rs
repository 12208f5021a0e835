//! The idle wait of the main loop.
//!
//! It ends when its time is up, on shutdown, when a snapshot of microinit or a
//! change of an interface comes in, or when the machine was suspended. The
//! clocks are compared once a second at most, unless an interface changed.

use vstd::prelude::*;

use crate::run::WakeReason;
use crate::schedule::lesser;
use crate::sys::{suspend_detected, SUSPEND_SKEW_THRESHOLD};
use crate::time::{after_ms, deadline, Duration};

verus! {

/// How long one look for interface changes waits at most, in nanoseconds.
pub const IFACE_POLL_SLICE: u128 = 200_000_000;

/// Time between two comparisons of the clocks, in milliseconds.
pub const SUSPEND_CHECK_MS: u64 = 1000;

/// What the wait asks for next.
#[derive(Debug, Clone, Copy, PartialEq, Eq, Structural)]
pub enum WaitStep {
    /// Look at the clock, at the shutdown flag and at the microinit feed.
    Look,
    /// Compare the clocks. The wait goes on at the given reading.
    Skew { now: u64 },
    /// Wait for a change of an interface, for so many nanoseconds.
    Receive { nanos: u128 },
    /// Sleep for so many nanoseconds: the source of changes is gone.
    Pause { nanos: u128 },
    /// Time is up: compare the clocks once more.
    LastSkew,
    /// Look at the microinit feed once more.
    LastLook,
    /// The wait is over.
    Done { reason: WakeReason },
}

/// What came of waiting for a change of an interface.
#[derive(Debug, Clone, Copy, PartialEq, Eq, Structural)]
pub enum ChangeOutcome {
    /// One came in; the skew of the clocks right after.
    Change { skew: Duration },
    Timeout,
    Disconnected,
}

/// What came of a step of the wait.
#[derive(Debug, Clone, Copy, PartialEq, Eq, Structural)]
pub enum WaitEvent {
    Looked { now: u64, shutdown: bool, microinit: bool },
    Skewed { skew: Duration },
    Received { outcome: ChangeOutcome },
    Paused,
    LookedAgain { microinit: bool },
}

/// The state of the wait.
#[derive(Debug, Clone, Copy, PartialEq, Eq, Structural)]
pub struct Waiter {
    pub step: WaitStep,
    /// When the wait is over.
    pub deadline: u128,
    /// When to compare the clocks again.
    pub next_skew: u128,
    /// The skew of the clocks when they last told of a suspend.
    pub last_skew: Duration,
}

impl Waiter {
    /// How long to wait for a change: not beyond the deadline, nor the next
    /// comparison of the clocks, nor the slice.
    pub open spec fn slice(self, now: u64, next_skew: int) -> int {
        let left = if self.deadline > now {
            self.deadline - now
        } else {
            0
        };
        let until = if next_skew > now {
            next_skew - now
        } else {
            0
        };
        lesser(lesser(left, IFACE_POLL_SLICE as int), until)
    }

    /// The end of the wait.
    pub open spec fn done(self, reason: WakeReason) -> Waiter {
        Waiter { step: WaitStep::Done { reason }, ..self }
    }

    /// Whether the clocks tell of a suspend.
    pub open spec fn suspended(self, skew: Duration) -> bool {
        skew.nanos - self.last_skew.nanos >= SUSPEND_SKEW_THRESHOLD
    }

    /// The end of the wait after a suspend.
    pub open spec fn resumed(self, skew: Duration) -> Waiter {
        Waiter { last_skew: skew, ..self }.done(WakeReason::Suspend)
    }

    /// The state after an event. An event that does not answer the current
    /// step changes nothing.
    pub open spec fn next(self, event: WaitEvent) -> Waiter {
        match (self.step, event) {
            (WaitStep::Look, WaitEvent::Looked { now, shutdown, microinit }) => if now
                >= self.deadline {
                Waiter { step: WaitStep::LastSkew, ..self }
            } else if shutdown {
                self.done(WakeReason::Shutdown)
            } else if microinit {
                self.done(WakeReason::Microinit)
            } else if now >= self.next_skew {
                Waiter { step: WaitStep::Skew { now }, ..self }
            } else {
                Waiter {
                    step: WaitStep::Receive { nanos: self.slice(now, self.next_skew as int) as u128 },
                    ..self
                }
            },
            (WaitStep::Skew { now }, WaitEvent::Skewed { skew }) => if self.suspended(skew) {
                self.resumed(skew)
            } else {
                let next = after_ms(now, SUSPEND_CHECK_MS);
                Waiter {
                    step: WaitStep::Receive { nanos: self.slice(now, next) as u128 },
                    next_skew: next as u128,
                    ..self
                }
            },
            (WaitStep::Receive { nanos }, WaitEvent::Received { outcome }) => match outcome {
                ChangeOutcome::Change { skew } => if self.suspended(skew) {
                    self.resumed(skew)
                } else {
                    self.done(WakeReason::IfaceChange)
                },
                ChangeOutcome::Timeout => Waiter { step: WaitStep::Look, ..self },
                ChangeOutcome::Disconnected => Waiter { step: WaitStep::Pause { nanos }, ..self },
            },
            (WaitStep::Pause { nanos }, WaitEvent::Paused) => Waiter {
                step: WaitStep::Look,
                ..self
            },
            (WaitStep::LastSkew, WaitEvent::Skewed { skew }) => if self.suspended(skew) {
                self.resumed(skew)
            } else {
                Waiter { step: WaitStep::LastLook, ..self }
            },
            (WaitStep::LastLook, WaitEvent::LookedAgain { microinit }) => self.done(
                if microinit {
                    WakeReason::Microinit
                } else {
                    WakeReason::Timeout
                },
            ),
            _ => self,
        }
    }

    /// A wait for so many milliseconds from now on.
    pub fn new(now: u64, ms: u64, last_skew: Duration) -> (r: Self)
        ensures
            r == (Waiter {
                step: WaitStep::Look,
                deadline: after_ms(now, ms) as u128,
                next_skew: now as u128,
                last_skew,
            }),
    {
        Waiter {
            step: WaitStep::Look,
            deadline: deadline(now, ms),
            next_skew: now as u128,
            last_skew,
        }
    }

    /// How long to wait for a change.
    fn slice_nanos(&self, now: u64, next_skew: u128) -> (r: u128)
        ensures
            r == self.slice(now, next_skew as int),
    {
        let t: u128 = now as u128;
        let left: u128 = if self.deadline > t {
            self.deadline - t
        } else {
            0
        };
        let until: u128 = if next_skew > t {
            next_skew - t
        } else {
            0
        };
        let a: u128 = if left < IFACE_POLL_SLICE {
            left
        } else {
            IFACE_POLL_SLICE
        };
        if a < until {
            a
        } else {
            until
        }
    }

    fn finish(&mut self, reason: WakeReason)
        ensures
            *final(self) == old(self).done(reason),
    {
        self.step = WaitStep::Done { reason };
    }

    /// Takes in what came of the current step.
    pub fn advance(&mut self, event: WaitEvent)
        ensures
            *final(self) == old(self).next(event),
    {
        match (self.step, event) {
            (WaitStep::Look, WaitEvent::Looked { now, shutdown, microinit }) => {
                if now as u128 >= self.deadline {
                    self.step = WaitStep::LastSkew;
                } else if shutdown {
                    self.finish(WakeReason::Shutdown);
                } else if microinit {
                    self.finish(WakeReason::Microinit);
                } else if now as u128 >= self.next_skew {
                    self.step = WaitStep::Skew { now };
                } else {
                    let nanos: u128 = self.slice_nanos(now, self.next_skew);
                    self.step = WaitStep::Receive { nanos };
                }
            },
            (WaitStep::Skew { now }, WaitEvent::Skewed { skew }) => {
                if suspend_detected(self.last_skew, skew) {
                    self.last_skew = skew;
                    self.finish(WakeReason::Suspend);
                } else {
                    let next: u128 = deadline(now, SUSPEND_CHECK_MS);
                    let nanos: u128 = self.slice_nanos(now, next);
                    self.next_skew = next;
                    self.step = WaitStep::Receive { nanos };
                }
            },
            (WaitStep::Receive { nanos }, WaitEvent::Received { outcome }) => match outcome {
                ChangeOutcome::Change { skew } => {
                    if suspend_detected(self.last_skew, skew) {
                        self.last_skew = skew;
                        self.finish(WakeReason::Suspend);
                    } else {
                        self.finish(WakeReason::IfaceChange);
                    }
                },
                ChangeOutcome::Timeout => {
                    self.step = WaitStep::Look;
                },
                ChangeOutcome::Disconnected => {
                    self.step = WaitStep::Pause { nanos };
                },
            },
            (WaitStep::Pause { nanos }, WaitEvent::Paused) => {
                self.step = WaitStep::Look;
            },
            (WaitStep::LastSkew, WaitEvent::Skewed { skew }) => {
                if suspend_detected(self.last_skew, skew) {
                    self.last_skew = skew;
                    self.finish(WakeReason::Suspend);
                } else {
                    self.step = WaitStep::LastLook;
                }
            },
            (WaitStep::LastLook, WaitEvent::LookedAgain { microinit }) => {
                if microinit {
                    self.finish(WakeReason::Microinit);
                } else {
                    self.finish(WakeReason::Timeout);
                }
            },
            _ => {},
        }
    }
}

/// A suspend is never mistaken for something else: wherever the clocks are
/// compared and tell of one, the wait ends for that reason, and the same skew
/// does not tell of it again.
pub proof fn suspend_wins(s: Waiter, event: WaitEvent, skew: Duration)
    requires
        s.suspended(skew),
        (s.step is Skew || s.step is LastSkew) && event == (WaitEvent::Skewed { skew }) || s.step
            is Receive && event == (WaitEvent::Received {
            outcome: ChangeOutcome::Change { skew },
        }),
    ensures
        s.next(event).step == (WaitStep::Done { reason: WakeReason::Suspend }),
        !s.next(event).suspended(skew),
{
}

/// A wait for a change never lasts beyond the deadline nor beyond the slice.
pub proof fn slices_are_short(s: Waiter, now: u64, next_skew: int)
    requires
        now < s.deadline,
    ensures
        0 <= s.slice(now, next_skew) <= IFACE_POLL_SLICE,
        now + s.slice(now, next_skew) <= s.deadline,
{
}

/// A wait is over soon after its time is up: one comparison of the clocks and
/// one look at the microinit feed end it.
pub proof fn wait_ends(
    s: Waiter,
    now: u64,
    shutdown: bool,
    seen: bool,
    skew: Duration,
    microinit: bool,
)
    requires
        s.step is Look,
        now >= s.deadline,
    ensures
        s.next(WaitEvent::Looked { now, shutdown, microinit: seen }).next(
            WaitEvent::Skewed { skew },
        ).next(WaitEvent::LookedAgain { microinit }).step == (WaitStep::Done {
            reason: if s.suspended(skew) {
                WakeReason::Suspend
            } else if microinit {
                WakeReason::Microinit
            } else {
                WakeReason::Timeout
            },
        }),
{
}

/// A wait lasts for so long as it is asked to, unless something ends it: before
/// that, a request to shut down ends it first, then a snapshot of microinit; no
/// look at the clock alone does.
pub proof fn wait_is_ended_by_events(
    s: Waiter,
    now: u64,
    shutdown: bool,
    microinit: bool,
)
    requires
        s.step is Look,
        now < s.deadline,
    ensures
        ({
            let t = s.next(WaitEvent::Looked { now, shutdown, microinit });
            &&& shutdown ==> t.step == (WaitStep::Done { reason: WakeReason::Shutdown })
            &&& !shutdown && microinit ==> t.step == (WaitStep::Done {
                reason: WakeReason::Microinit,
            })
            &&& !shutdown && !microinit ==> (t.step is Skew <==> now >= s.next_skew)
                && (t.step is Receive <==> now < s.next_skew)
            &&& t.deadline == s.deadline && t.next_skew == s.next_skew && t.last_skew
                == s.last_skew
        }),
{
}

/// A change of an interface ends the wait, a time without one does not; where no
/// change can come in any more, the rest of the slice is slept.
pub proof fn changes_end_the_wait(s: Waiter, skew: Duration, nanos: u128)
    requires
        s.step == (WaitStep::Receive { nanos }),
        skew.nanos - s.last_skew.nanos < 2_000_000_000,
    ensures
        ({
            let changed = WaitEvent::Received { outcome: ChangeOutcome::Change { skew } };
            let nothing = WaitEvent::Received { outcome: ChangeOutcome::Timeout };
            let gone = WaitEvent::Received { outcome: ChangeOutcome::Disconnected };
            &&& s.next(changed).step == (WaitStep::Done { reason: WakeReason::IfaceChange })
            &&& s.next(changed).last_skew == s.last_skew
            &&& s.next(nothing) == (Waiter { step: WaitStep::Look, ..s })
            &&& s.next(gone).step == (WaitStep::Pause { nanos })
            &&& s.next(gone).next(WaitEvent::Paused) == (Waiter { step: WaitStep::Look, ..s })
        }),
{
}

/// The clocks are compared again a second after they told of no suspend, and the
/// wait goes on.
pub proof fn clocks_are_compared_every_second(s: Waiter, now: u64, skew: Duration)
    requires
        s.step == (WaitStep::Skew { now }),
        skew.nanos - s.last_skew.nanos < 2_000_000_000,
    ensures
        ({
            let t = s.next(WaitEvent::Skewed { skew });
            &&& t.step is Receive
            &&& t.next_skew == now + 1_000_000_000
            &&& t.last_skew == s.last_skew && t.deadline == s.deadline
        }),
{
}

/// A jump of the skew by two seconds or more is a suspend, and nothing less is.
pub proof fn two_seconds_are_a_suspend(s: Waiter, skew: Duration)
    requires
        s.step is LastSkew,
    ensures
        ({
            let t = s.next(WaitEvent::Skewed { skew });
            &&& t.step == (WaitStep::Done { reason: WakeReason::Suspend }) <==> skew.nanos
                - s.last_skew.nanos >= 2_000_000_000
            &&& t.step is LastLook <==> skew.nanos - s.last_skew.nanos < 2_000_000_000
        }),
{
}

/// A slice is as long as it may be: a fifth of a second, or until the deadline,
/// or until the clocks are compared again, whichever is first.
pub proof fn slices_are_full(s: Waiter, now: u64, next_skew: int)
    requires
        now < s.deadline,
        now < next_skew,
    ensures
        ({
            let n = s.slice(now, next_skew);
            &&& n == 200_000_000 || now + n == s.deadline || now + n == next_skew
            &&& n <= 200_000_000 && now + n <= s.deadline && now + n <= next_skew
            &&& n > 0
        }),
{
}

} // verus!
