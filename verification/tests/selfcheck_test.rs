use microdns::legacy_unicast::IfaceAddr4;
use microdns::mdns::AnnounceLog;
use microdns::net::Ipv4Addr;
use microdns::selfcheck::{
    escalate, evaluate, missing_mdns_membership, parse_igmp, stale_announces, Escalation, Report,
    MDNS_GROUP_V4,
};
use microdns::time::Duration;

const SAMPLE_IGMP: &str = "\
Idx\tDevice    : Count Querier\tGroup    Users Timer    Reporter
1\tlo        :     1      V3
\t\t\t\t010000E0     1 0:00000000\t0
2\teth0      :     2      V3
\t\t\t\tFB0000E0     1 0:00000000\t0
\t\t\t\t010000E0     1 0:00000000\t0
3\twlan0     :     1      V3
\t\t\t\t010000E0     1 0:00000000\t0
";

fn group() -> Ipv4Addr {
    Ipv4Addr {
        bits: MDNS_GROUP_V4,
    }
}

fn want() -> Vec<IfaceAddr4> {
    vec![
        IfaceAddr4 {
            iface: "eth0".into(),
            addr: Ipv4Addr::new(192, 168, 0, 1),
            mask: Ipv4Addr::new(255, 255, 255, 0),
            ifindex: 2,
        },
        IfaceAddr4 {
            iface: "wlan0".into(),
            addr: Ipv4Addr::new(192, 168, 1, 1),
            mask: Ipv4Addr::new(255, 255, 255, 0),
            ifindex: 3,
        },
    ]
}

#[test]
fn parse_igmp_finds_mdns_group_on_eth0() {
    let groups = parse_igmp(SAMPLE_IGMP);
    assert!(groups.get("eth0").unwrap().contains(&group()));
    assert!(!groups.get("wlan0").unwrap().contains(&group()));
    assert!(!groups.get("lo").unwrap().contains(&group()));
}

#[test]
fn the_group_is_that_of_mdns() {
    assert_eq!(group(), Ipv4Addr::new(224, 0, 0, 251));
    let groups = parse_igmp(SAMPLE_IGMP);
    assert_eq!(groups.len(), 3);
    assert_eq!(
        groups.get("eth0").unwrap(),
        &vec![group(), Ipv4Addr::new(224, 0, 0, 1)]
    );
    assert_eq!(parse_igmp("").len(), 0);
}

#[test]
fn missing_membership_lists_ifaces_without_group() {
    let groups = parse_igmp(SAMPLE_IGMP);
    assert_eq!(
        missing_mdns_membership(&groups, &want()),
        vec!["wlan0".to_string()]
    );
}

#[test]
fn stale_announces_when_missing_or_old() {
    let mut log = AnnounceLog::new();
    log.record("fresh._http._tcp.local.", 1_000_000_000);
    let now = 1_000_000_001;
    let expected = vec![
        "fresh._http._tcp.local.".into(),
        "gone._http._tcp.local.".into(),
    ];
    let stale = stale_announces(&expected, &log, Duration::from_secs(60), now);
    assert_eq!(stale, vec!["gone._http._tcp.local.".to_string()]);
    // Later the first is too old as well.
    let late = 1_000_000_000 + 61_000_000_000;
    assert_eq!(
        stale_announces(&expected, &log, Duration::from_secs(60), late).len(),
        2
    );
}

#[test]
fn a_report_tells_what_is_wrong() {
    let mut log = AnnounceLog::new();
    log.record("a.", 5);
    let names = vec!["a.".to_string()];
    let fresh = Duration::from_secs(60);
    let good = evaluate(SAMPLE_IGMP, true, &log, &want()[0..1], &names, fresh, 6);
    assert!(good.ok && good.igmp_ok && good.daemon_alive && good.announce_fresh);
    let bad = evaluate(SAMPLE_IGMP, false, &log, &want(), &["b.".to_string()], fresh, 6);
    assert!(!bad.ok && !bad.igmp_ok && !bad.daemon_alive && !bad.announce_fresh);
    assert_eq!(bad.missing_igmp_ifaces, vec!["wlan0".to_string()]);
    assert_eq!(bad.stale_services, vec!["b.".to_string()]);
    assert_eq!(
        bad.message,
        "mdns-sd thread not running; 224.0.0.251 not joined on wlan0; stale announces: b."
    );
    assert_eq!(good.message, "ok");
    assert_eq!(bad.clone(), bad);
    assert!(Report::default().ok);
}

#[test]
fn failures_climb_and_success_starts_over() {
    assert_eq!(escalate(Escalation::Nothing, false), Escalation::Reannounce);
    assert_eq!(
        escalate(Escalation::Reannounce, false),
        Escalation::RecreateDaemon
    );
    assert_eq!(escalate(Escalation::RecreateDaemon, true), Escalation::Nothing);
    assert_eq!(escalate(Escalation::Nothing, true), Escalation::Nothing);
}
