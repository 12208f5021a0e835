use microdns::run::WakeReason;
use microdns::time::Duration;
use microdns::wait::{ChangeOutcome, WaitEvent, WaitStep, Waiter};

const MS: u64 = 1_000_000;

fn steady() -> Duration {
    Duration::from_millis(10)
}

#[test]
fn sleep_returns_iface_change() {
    let mut w = Waiter::new(0, 2000, steady());
    w.advance(WaitEvent::Looked {
        now: 0,
        shutdown: false,
        microinit: false,
    });
    assert_eq!(w.step, WaitStep::Skew { now: 0 });
    w.advance(WaitEvent::Skewed { skew: steady() });
    assert_eq!(w.step, WaitStep::Receive { nanos: 200_000_000 });
    w.advance(WaitEvent::Received {
        outcome: ChangeOutcome::Change { skew: steady() },
    });
    assert_eq!(
        w.step,
        WaitStep::Done {
            reason: WakeReason::IfaceChange
        }
    );
}

#[test]
fn sleep_times_out_without_signal() {
    let mut w = Waiter::new(0, 50, steady());
    w.advance(WaitEvent::Looked {
        now: 0,
        shutdown: false,
        microinit: false,
    });
    w.advance(WaitEvent::Skewed { skew: steady() });
    // Not beyond the deadline.
    assert_eq!(w.step, WaitStep::Receive { nanos: 50_000_000 });
    w.advance(WaitEvent::Received {
        outcome: ChangeOutcome::Timeout,
    });
    w.advance(WaitEvent::Looked {
        now: 50 * MS,
        shutdown: false,
        microinit: false,
    });
    assert_eq!(w.step, WaitStep::LastSkew);
    w.advance(WaitEvent::Skewed { skew: steady() });
    w.advance(WaitEvent::LookedAgain { microinit: false });
    assert_eq!(
        w.step,
        WaitStep::Done {
            reason: WakeReason::Timeout
        }
    );
}

#[test]
fn suspend_is_told_from_other_wakes() {
    let jumped = Duration::from_secs(60);
    let mut w = Waiter::new(0, 2000, steady());
    w.advance(WaitEvent::Looked {
        now: 0,
        shutdown: false,
        microinit: false,
    });
    w.advance(WaitEvent::Skewed { skew: steady() });
    w.advance(WaitEvent::Received {
        outcome: ChangeOutcome::Change { skew: jumped },
    });
    assert_eq!(
        w.step,
        WaitStep::Done {
            reason: WakeReason::Suspend
        }
    );
    assert_eq!(w.last_skew, jumped);
    // The same skew does not tell of it again.
    let mut again = Waiter::new(0, 2000, w.last_skew);
    again.advance(WaitEvent::Looked {
        now: 0,
        shutdown: false,
        microinit: false,
    });
    again.advance(WaitEvent::Skewed { skew: jumped });
    assert_eq!(again.step, WaitStep::Receive { nanos: 200_000_000 });
}

#[test]
fn shutdown_and_snapshots_end_the_wait() {
    let mut w = Waiter::new(0, 2000, steady());
    w.advance(WaitEvent::Looked {
        now: 0,
        shutdown: true,
        microinit: true,
    });
    assert_eq!(
        w.step,
        WaitStep::Done {
            reason: WakeReason::Shutdown
        }
    );
    let mut w = Waiter::new(0, 2000, steady());
    w.advance(WaitEvent::Looked {
        now: 0,
        shutdown: false,
        microinit: true,
    });
    assert_eq!(
        w.step,
        WaitStep::Done {
            reason: WakeReason::Microinit
        }
    );
}

#[test]
fn a_lost_source_of_changes_is_slept_over() {
    let mut w = Waiter::new(0, 2000, steady());
    w.advance(WaitEvent::Looked {
        now: 0,
        shutdown: false,
        microinit: false,
    });
    w.advance(WaitEvent::Skewed { skew: steady() });
    w.advance(WaitEvent::Received {
        outcome: ChangeOutcome::Disconnected,
    });
    assert_eq!(w.step, WaitStep::Pause { nanos: 200_000_000 });
    w.advance(WaitEvent::Paused);
    assert_eq!(w.step, WaitStep::Look);
    // The clocks are compared once a second.
    w.advance(WaitEvent::Looked {
        now: 900 * MS,
        shutdown: false,
        microinit: false,
    });
    assert_eq!(w.step, WaitStep::Receive { nanos: 100_000_000 });
}
