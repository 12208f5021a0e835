use microdns::bigfred_watch::Program;
use microdns::config::{Config, ServiceEntry};
use microdns::daemon::{answer_hosts, Daemon, Event, Step};
use microdns::legacy_unicast::MembershipRefresh;
use microdns::mdns::{AnnounceLog, IfaceInfo};
use microdns::net::Ipv4Addr;
use microdns::run::{ReconcileAction, WakeReason};
use microdns::selfcheck::{Escalation, Report};
use microdns::time::Duration;

const SEC: u64 = 1_000_000_000;

fn skew() -> Duration {
    Duration::from_millis(10)
}

fn eth0() -> Vec<IfaceInfo> {
    vec![IfaceInfo {
        name: "eth0".into(),
        is_up: true,
        is_loopback: false,
        ifindex: 2,
        ipv4: vec![(
            Ipv4Addr::new(192, 168, 1, 10),
            Ipv4Addr::new(255, 255, 255, 0),
        )],
        ipv6: Vec::new(),
    }]
}

fn entry(name: &str, host: Option<&str>) -> ServiceEntry {
    ServiceEntry {
        name: name.into(),
        type_: "_http._tcp".into(),
        protocol: "tcp".into(),
        port: 80,
        host: host.map(|h| h.to_string()),
        txt: None,
    }
}

struct Rig {
    d: Daemon,
    m: MembershipRefresh,
}

impl Rig {
    fn new() -> Rig {
        let mut r = Rig {
            d: Daemon::new(Config::default(), 0, skew()),
            m: MembershipRefresh::new(),
        };
        assert_eq!(r.d.step(), Step::Observe);
        r.observe(0, skew());
        r
    }

    fn go(&mut self, event: Event) {
        self.d.advance(event, &mut self.m);
    }

    fn observe(&mut self, now: u64, skew: Duration) {
        self.go(Event::Observed {
            now,
            skew,
            config: Config::default(),
            snapshot: None,
        });
    }

    /// Runs from the start of the mDNS daemon to the plan.
    fn to_plan(&mut self, now: u64) {
        self.go(Event::Started { ok: true });
        assert_eq!(self.d.step(), Step::Interfaces);
        self.go(Event::Interfaces {
            ifaces: eth0(),
            machine: "hub".into(),
            now,
        });
        if let Step::Answers { .. } = self.d.step() {
            self.go(Event::Answered);
        }
        if self.d.step() == Step::Probe {
            self.go(Event::Probed {
                programs: None,
                now,
            });
        }
        assert_eq!(self.d.step(), Step::Publish);
        self.go(Event::Published { now });
    }
}

#[test]
fn the_first_round_registers_the_services() {
    let mut r = Rig::new();
    assert_eq!(r.d.report(), &Report::default());
    assert_eq!(r.d.step(), Step::Start { recreate: false });
    r.to_plan(0);
    assert_eq!(r.d.step(), Step::Apply);
    assert_eq!(
        r.d.next_action(),
        Some(&ReconcileAction::Add("bigfred._http._tcp.local.".into()))
    );
    assert_eq!(
        r.d.entry_for("bigfred._http._tcp.local.").unwrap().name,
        "bigfred"
    );
    assert_eq!(r.d.entry_for("other"), None);
    assert_eq!(r.d.desired().ips, vec![Ipv4Addr::new(192, 168, 1, 10)]);
    assert_eq!(r.d.answers().v4.len(), 1);
    r.go(Event::Applied { ok: true, now: 0 });
    assert_eq!(r.d.step(), Step::Beacons);
    r.go(Event::Beacons { ok: true, now: 0 });
    match r.d.step() {
        // The first announcement of the burst is a second away.
        Step::Rest { ms } => assert_eq!(ms, 1000),
        other => panic!("{other:?}"),
    }
}

#[test]
fn nothing_is_planned_when_all_is_registered() {
    let mut r = Rig::new();
    r.to_plan(0);
    r.go(Event::Applied { ok: true, now: 0 });
    r.go(Event::Beacons { ok: true, now: 0 });
    r.go(Event::Woke {
        reason: WakeReason::Timeout,
        skew: skew(),
        snapshot: None,
    });
    r.observe(SEC / 2, skew());
    r.to_plan(SEC / 2);
    assert!(matches!(r.d.step(), Step::Rest { .. }));
    assert_eq!(r.d.next_action(), None);
}

#[test]
fn a_failed_registration_is_tried_again() {
    let mut r = Rig::new();
    r.to_plan(0);
    r.go(Event::Applied { ok: false, now: 0 });
    assert!(matches!(r.d.step(), Step::Rest { .. }));
    r.go(Event::Woke {
        reason: WakeReason::Timeout,
        skew: skew(),
        snapshot: None,
    });
    r.observe(SEC, skew());
    r.to_plan(SEC);
    assert_eq!(
        r.d.next_action(),
        Some(&ReconcileAction::Add("bigfred._http._tcp.local.".into()))
    );
}

#[test]
fn a_suspend_starts_afresh() {
    let mut r = Rig::new();
    r.to_plan(0);
    r.go(Event::Applied { ok: true, now: 0 });
    r.go(Event::Beacons { ok: true, now: 0 });
    r.go(Event::Woke {
        reason: WakeReason::Suspend,
        skew: Duration::from_secs(60),
        snapshot: None,
    });
    assert_eq!(r.d.last_skew(), Duration::from_secs(60));
    assert_eq!(r.m.epoch(), 1);
    assert!(r.m.take_rebind());
    r.observe(SEC, Duration::from_secs(60));
    assert_eq!(r.m.epoch(), 1);
    assert_eq!(r.d.step(), Step::Start { recreate: true });
    r.to_plan(SEC);
    assert_eq!(
        r.d.next_action(),
        Some(&ReconcileAction::Add("bigfred._http._tcp.local.".into()))
    );
}

#[test]
fn a_daemon_that_does_not_start_is_tried_again() {
    let mut r = Rig::new();
    r.go(Event::Started { ok: false });
    assert_eq!(r.d.step(), Step::Retry { ms: 3000 });
    r.go(Event::Woke {
        reason: WakeReason::Timeout,
        skew: skew(),
        snapshot: None,
    });
    assert_eq!(r.d.step(), Step::Observe);
}

#[test]
fn programs_become_advertisements() {
    let mut r = Rig::new();
    r.go(Event::Started { ok: true });
    r.go(Event::Interfaces {
        ifaces: eth0(),
        machine: "hub".into(),
        now: 0,
    });
    assert_eq!(r.d.step(), Step::Answers { probe: true });
    r.go(Event::Answered);
    assert_eq!(r.d.step(), Step::Probe);
    let program = Program {
        running: true,
        command_station_id: 5,
        withrottle_enabled: true,
        withrottle_port: 12091,
        ..Program::default()
    };
    r.go(Event::Probed {
        programs: Some(vec![program]),
        now: 0,
    });
    assert_eq!(r.d.desired().dynamic.len(), 1);
    assert_eq!(r.d.desired().dynamic[0].entry.name, "BigFred #5");
}

/// Runs one round up to the question to loco-server.
fn to_probe(r: &mut Rig, now: u64) {
    r.go(Event::Published { now });
    while r.d.step() == Step::Apply {
        r.go(Event::Applied { ok: true, now });
    }
    r.go(Event::Beacons { ok: true, now });
    if r.d.step() == Step::Check {
        r.go(Event::Checked {
            ifaces: eth0(),
            igmp: String::new(),
            alive: true,
            log: AnnounceLog::new(),
            now,
        });
        r.go(Event::Reported { now });
    }
    r.go(Event::Woke {
        reason: WakeReason::Timeout,
        skew: skew(),
        snapshot: None,
    });
    r.observe(now, skew());
    r.go(Event::Started { ok: true });
    r.go(Event::Interfaces {
        ifaces: eth0(),
        machine: "hub".into(),
        now,
    });
    if let Step::Answers { .. } = r.d.step() {
        r.go(Event::Answered);
    }
}

#[test]
fn programs_are_withdrawn_when_loco_server_stays_silent() {
    let mut r = Rig::new();
    assert!(!r.d.withdraws(1000 * SEC));
    r.go(Event::Started { ok: true });
    r.go(Event::Interfaces {
        ifaces: eth0(),
        machine: "hub".into(),
        now: 0,
    });
    r.go(Event::Answered);
    r.go(Event::Probed {
        programs: Some(vec![Program {
            running: true,
            command_station_id: 5,
            withrottle_enabled: true,
            withrottle_port: 12091,
            ..Program::default()
        }]),
        now: 0,
    });
    to_probe(&mut r, 100 * SEC);
    assert_eq!(r.d.step(), Step::Probe);
    // The first failure only starts the clock.
    assert!(!r.d.withdraws(100 * SEC));
    r.go(Event::Probed {
        programs: None,
        now: 100 * SEC,
    });
    assert_eq!(r.d.desired().dynamic.len(), 1);
    to_probe(&mut r, 145 * SEC);
    assert_eq!(r.d.step(), Step::Probe);
    assert!(!r.d.withdraws(145 * SEC - 1));
    assert!(r.d.withdraws(145 * SEC));
    r.go(Event::Probed {
        programs: None,
        now: 145 * SEC,
    });
    assert!(r.d.desired().dynamic.is_empty());
    assert!(!r.d.withdraws(145 * SEC));
}

#[test]
fn failed_checks_lead_to_recovery() {
    let mut r = Rig::new();
    r.to_plan(0);
    r.go(Event::Applied { ok: true, now: 0 });
    r.go(Event::Beacons { ok: true, now: 0 });
    for (round, want) in [Escalation::Reannounce, Escalation::RecreateDaemon]
        .into_iter()
        .enumerate()
    {
        let now = (round as u64 + 1) * 1000 * SEC;
        r.go(Event::Woke {
            reason: WakeReason::Timeout,
            skew: skew(),
            snapshot: None,
        });
        r.observe(now, skew());
        r.to_plan(now);
        while r.d.step() == Step::Apply {
            r.go(Event::Applied { ok: true, now });
        }
        r.go(Event::Beacons { ok: true, now });
        assert_eq!(r.d.step(), Step::Check);
        r.go(Event::Checked {
            ifaces: eth0(),
            igmp: String::new(),
            alive: true,
            log: AnnounceLog::new(),
            now,
        });
        assert_eq!(r.d.step(), Step::Report);
        assert!(!r.d.report().ok);
        assert_eq!(r.d.report().escalation, want);
        r.go(Event::Reported { now });
    }
    r.go(Event::Woke {
        reason: WakeReason::Timeout,
        skew: skew(),
        snapshot: None,
    });
    r.observe(3000 * SEC, skew());
    assert_eq!(r.d.step(), Step::Start { recreate: true });
}

#[test]
fn stray_events_change_nothing() {
    let mut r = Rig::new();
    r.go(Event::Answered);
    r.go(Event::Reported { now: 5 });
    assert_eq!(r.d.step(), Step::Start { recreate: false });
    assert_eq!(r.d.config(), &Config::default());
}

#[test]
fn hosts_are_answered_once_each() {
    assert_eq!(
        answer_hosts(
            &[entry("a", Some("x")), entry("b", None)],
            &[entry("c", Some("X.local"))],
            Some("x".to_string()),
            "hub",
        ),
        vec![
            "x.local.".to_string(),
            "hub.local.".to_string(),
            "X.local.".to_string(),
        ]
    );
}

#[test]
fn the_last_snapshot_is_kept_while_microinit_is_silent() {
    let mut r = Rig {
        d: Daemon::new(Config::default(), 0, skew()),
        m: MembershipRefresh::new(),
    };
    r.go(Event::Observed {
        now: 0,
        skew: skew(),
        config: Config::default(),
        snapshot: Some(vec![entry("web", None)]),
    });
    r.to_plan(0);
    assert_eq!(r.d.desired().dynamic.len(), 1);
    while r.d.step() == Step::Apply {
        r.go(Event::Applied { ok: true, now: 0 });
    }
    r.go(Event::Beacons { ok: true, now: 0 });
    r.go(Event::Woke {
        reason: WakeReason::Timeout,
        skew: skew(),
        snapshot: None,
    });
    r.observe(SEC / 2, skew());
    r.to_plan(SEC / 2);
    assert_eq!(r.d.desired().dynamic.len(), 1);
    assert!(matches!(r.d.step(), Step::Rest { .. }));
    // Turned off in the configuration, it is forgotten.
    r.go(Event::Woke {
        reason: WakeReason::Timeout,
        skew: skew(),
        snapshot: None,
    });
    let mut off = Config::default();
    off.microinit.enabled = false;
    r.go(Event::Observed {
        now: SEC / 2,
        skew: skew(),
        config: off,
        snapshot: None,
    });
    r.to_plan(SEC / 2);
    assert_eq!(
        r.d.next_action(),
        Some(&ReconcileAction::Drop("web._http._tcp.local.".into()))
    );
}
