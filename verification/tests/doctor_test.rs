use microdns::config::Config;
use microdns::ctl::build_daemon_doctor;
use microdns::doctor::{collect_with_config, iface_rows, print_human};
use microdns::grouping::{log_detected_interfaces, names_of, no_iface_reason};
use microdns::legacy_unicast::{AnswerSet, IfaceAddr4, IfaceAddr6};
use microdns::mdns::IfaceInfo;
use microdns::net::{Ipv4Addr, Ipv6Addr};
use microdns::run::DesiredAds;

fn v4() -> Vec<IfaceAddr4> {
    vec![IfaceAddr4 {
        iface: "wlan0".into(),
        addr: Ipv4Addr::new(192, 168, 1, 10),
        mask: Ipv4Addr::new(255, 255, 255, 0),
        ifindex: 3,
    }]
}

fn v6() -> Vec<IfaceAddr6> {
    vec![IfaceAddr6 {
        iface: "eth0".into(),
        addr: Ipv6Addr::new(0x2001, 0xdb8, 0, 0, 0, 0, 0, 1),
        ifindex: 2,
    }]
}

#[test]
fn rows_are_one_for_each_interface() {
    let rows = iface_rows(&v4(), &v6());
    assert_eq!(rows.len(), 2);
    assert_eq!(rows[0].name, "eth0");
    assert_eq!(rows[0].ifindex, 2);
    assert_eq!(rows[0].ipv6, vec!["2001:db8::1".to_string()]);
    assert!(rows[0].ipv4.is_empty());
    assert_eq!(rows[1].name, "wlan0");
    assert_eq!(rows[1].ipv4, vec!["192.168.1.10".to_string()]);
    assert_eq!(names_of(&v4(), &v6()), vec!["eth0", "wlan0"]);
}

#[test]
fn report_shows_interfaces_groups_and_daemon() {
    let ifaces = [IfaceInfo {
        name: "eth0".into(),
        is_up: true,
        is_loopback: false,
        ifindex: 2,
        ipv4: vec![(
            Ipv4Addr::new(192, 168, 1, 10),
            Ipv4Addr::new(255, 255, 255, 0),
        )],
        ipv6: Vec::new(),
    }];
    let igmp = "Idx\tDevice    : Count Querier\tGroup    Users Timer    Reporter\n2\teth0      :     1      V3\n\t\t\t\tFB0000E0     1 0:00000000\t0\n";
    let mut cfg = Config::default();
    cfg.skip_interfaces = vec!["wlan".into()];
    let report = collect_with_config(&cfg, &ifaces, igmp.to_string(), "".to_string(), None);
    assert_eq!(report.interfaces.len(), 1);
    assert_eq!(report.skip_interfaces, vec!["wlan".to_string()]);
    assert_eq!(report.igmp.len(), 1);
    assert_eq!(report.igmp.key_at(0), "eth0");
    assert_eq!(report.igmp.value_at(0), &vec!["224.0.0.251".to_string()]);
    let text = print_human(&report);
    let local = "interfaces (usable for mDNS):\n  eth0 ifindex=2 ipv4=[\"192.168.1.10\"] ipv6=[]\nallow=[] skip=[\"wlan\"]\nigmp groups:\n  eth0: [\"224.0.0.251\"] mdns=yes\n";
    assert_eq!(
        text,
        format!("{local}daemon: not running (ctl socket unreachable)\n")
    );
    let live = collect_with_config(
        &cfg,
        &ifaces,
        igmp.to_string(),
        "".to_string(),
        Some(build_daemon_doctor(&DesiredAds::default(), None, 0)),
    );
    let running = "daemon: running\n  registered: []\n  services: \n  metrics: register=0 register-resend=0 unregister=0 unregister-resend=0 respond=0\n  last announce (seconds ago): {}\n  selfcheck: ok=true escalation=None not checked yet\n";
    assert_eq!(print_human(&live), format!("{local}{running}"));
}

#[test]
fn detected_interfaces_are_listed() {
    let answers = AnswerSet {
        v4: v4(),
        v6: v6(),
        ..AnswerSet::default()
    };
    let lines = log_detected_interfaces(&answers);
    assert_eq!(
        lines,
        vec![
            "network interface detected name=eth0 ifindex=2 ipv4=[] ipv6=[\"2001:db8::1 (ifindex=2)\"] multicast_group=224.0.0.251",
            "network interface detected name=wlan0 ifindex=3 ipv4=[\"192.168.1.10 (ifindex=3)\"] ipv6=[] multicast_group=224.0.0.251",
        ]
    );
    assert_eq!(
        log_detected_interfaces(&AnswerSet::default()),
        vec!["network interfaces: none usable for mDNS"]
    );
}

#[test]
fn the_lists_explain_why_no_interface_is_usable() {
    assert_eq!(
        no_iface_reason(&[], &[]),
        "no running non-loopback IPv4 (skipping docker/veth/br-*)"
    );
    assert_eq!(
        no_iface_reason(&[], &["wlan".into()]),
        "no running non-loopback IPv4 (skipping docker/veth/br-*, configured [\"wlan\"])"
    );
    assert_eq!(
        no_iface_reason(&["eth".into()], &["wlan".into()]),
        "none of configured interfaces present/usable (interfaces=[\"eth\"], skip=[\"wlan\"])"
    );
    assert_eq!(
        no_iface_reason(&["eth".into()], &[]),
        "none of configured interfaces present/usable (interfaces=[\"eth\"], skip=[])"
    );
}
