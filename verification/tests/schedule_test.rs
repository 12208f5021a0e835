use microdns::bigfred_watch::Program;
use microdns::config::RetryConfig;
use microdns::schedule::{sleep_ms, Announcer, Poller};
use microdns::time::{deadline, ms_until, Duration};

const MS: u64 = 1_000_000;
const SEC: u64 = 1000 * MS;

#[test]
fn announcements_come_round() {
    let mut a = Announcer {
        force: false,
        next_periodic: deadline(0, 60_000),
        bursts: vec![SEC as u128, (2 * SEC) as u128],
    };
    a.tick(0, 60_000);
    assert!(!a.force);
    assert_eq!(a.bursts.len(), 2);
    a.tick(SEC, 60_000);
    assert!(a.force);
    assert_eq!(a.bursts, vec![(2 * SEC) as u128]);
    a.force = false;
    a.bursts.clear();
    a.tick(60 * SEC - 1, 60_000);
    assert!(!a.force);
    a.tick(60 * SEC, 60_000);
    assert!(a.force);
    assert_eq!(a.next_periodic, (120 * SEC) as u128);
}

#[test]
fn programs_outlive_a_short_silence() {
    let retry = RetryConfig::default();
    let mut p = Poller::new(0);
    assert!(p.due(0));
    p.report(vec![Program::default()], 0, retry);
    assert!(!p.due(0));
    assert!(!p.fail(10 * SEC, retry));
    assert!(!p.fail(54 * SEC, retry));
    assert!(p.programs.is_some());
    assert_eq!(p.failures, 2);
    assert!(p.fail(55 * SEC, retry));
    assert!(p.programs.is_none());
    p.report(Vec::new(), 60 * SEC, retry);
    assert_eq!(p.failures, 0);
    assert_eq!(p.stale_since, None);
}

#[test]
fn sleep_ends_with_the_first_thing_that_is_due() {
    let retry = RetryConfig {
        poll_ms: 1000,
        mdns_ms: 3000,
        iface_ms: 5000,
        bigfred_ms: 45_000,
        microinit_reconnect_ms: 1000,
    };
    let a = Announcer {
        force: false,
        next_periodic: deadline(0, 60_000),
        bursts: Vec::new(),
    };
    let far = deadline(0, 100_000);
    assert_eq!(sleep_ms(retry, false, 0, &a, far, 0), 3000);
    assert_eq!(sleep_ms(retry, true, deadline(0, 700), &a, far, 0), 700);
    assert_eq!(sleep_ms(retry, true, far, &a, far, 0), 5000);
    assert_eq!(sleep_ms(retry, true, 0, &a, far, 0), 200);
    assert_eq!(sleep_ms(retry, false, 0, &a, deadline(0, 900), 0), 900);
    let b = Announcer {
        force: false,
        next_periodic: deadline(0, 60_000),
        bursts: vec![deadline(0, 1500)],
    };
    assert_eq!(sleep_ms(retry, false, 0, &b, far, 0), 1500);
}

#[test]
fn deadlines_count_milliseconds() {
    assert_eq!(deadline(5, 2), 2_000_005);
    assert_eq!(ms_until(2_000_005, 5), 2);
    assert_eq!(ms_until(1, 5), 0);
    assert_eq!(Duration::from_millis(3).nanos, 3_000_000);
    assert_eq!(Duration::from_secs(3).nanos, 3_000_000_000);
}
