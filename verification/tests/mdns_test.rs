use microdns::config::ServiceEntry;
use microdns::legacy_unicast::{IfaceAddr4, IfaceAddr6};
use microdns::mdns::{
    addrs_for_iface, dcc_service_entry, has_usable_iface, iface_info, iface_link_ready,
    iface_name_relevant, is_allowed_iface, list_interfaces, normalize_hostname,
    normalize_service_type, plan_service, preferred_iface_indexes, preferred_ipv4_addrs,
    preferred_ipv4_ifaces, preferred_ipv6_addrs, primary_ip, should_skip_iface, IfaceInfo,
    MdnsPublisher, RawAddr, RawIface, IFF_LOOPBACK, IFF_RUNNING,
};
use microdns::net::{IpAddr, Ipv4Addr, Ipv6Addr};
use microdns::textmap::TextMap;

fn iface(name: &str, index: u32, v4: &[(u8, u8)], v6: &[u16]) -> IfaceInfo {
    IfaceInfo {
        name: name.into(),
        is_up: true,
        is_loopback: false,
        ifindex: index,
        ipv4: v4
            .iter()
            .map(|(c, d)| {
                (
                    Ipv4Addr::new(192, 168, *c, *d),
                    Ipv4Addr::new(255, 255, 255, 0),
                )
            })
            .collect(),
        ipv6: v6
            .iter()
            .map(|h| Ipv6Addr::new(0x2001, 0xdb8, 0, 0, 0, 0, 0, *h))
            .collect(),
    }
}

fn sample_ifaces() -> Vec<IfaceInfo> {
    let mut down = iface("eth9", 9, &[(9, 9)], &[]);
    down.is_up = false;
    vec![
        iface("wlan0", 3, &[(1, 20), (1, 10)], &[7, 2]),
        iface("docker0", 4, &[(7, 1)], &[]),
        down,
        iface("eth0", 2, &[(0, 5)], &[9]),
    ]
}

fn entry(name: &str, type_: &str, host: Option<&str>) -> ServiceEntry {
    ServiceEntry {
        name: name.into(),
        type_: type_.into(),
        protocol: "tcp".into(),
        port: 8080,
        host: host.map(|h| h.to_string()),
        txt: None,
    }
}

#[test]
fn normalize_type() {
    assert_eq!(normalize_service_type("_http._tcp"), "_http._tcp.local.");
    assert_eq!(
        normalize_service_type("_http._tcp.local"),
        "_http._tcp.local."
    );
    assert_eq!(
        normalize_service_type("_http._tcp.local."),
        "_http._tcp.local."
    );
}

#[test]
fn normalize_host() {
    assert_eq!(normalize_hostname("bigfred"), "bigfred.local.");
    assert_eq!(normalize_hostname("bigfred.local"), "bigfred.local.");
    assert_eq!(normalize_hostname("bigfred.local."), "bigfred.local.");
}

#[test]
fn skip_virtual_ifaces() {
    // Built-in virtual/container interfaces are always skipped.
    assert!(should_skip_iface("veth0abc", &[]));
    assert!(should_skip_iface("br-1234abcd", &[]));
    assert!(should_skip_iface("docker0", &[]));
    assert!(!should_skip_iface("eth0", &[]));
    assert!(!should_skip_iface("enp1s0", &[]));
    // wlan* is NOT skipped by default (mDNS advertises on WiFi on a laptop).
    assert!(!should_skip_iface("wlan0", &[]));
    assert!(!should_skip_iface("WLAN0", &[]));
    // ...but is skipped when configured (e.g. the BigFred hub reserves the
    // radio for wireless-programmer). Matching is by name prefix.
    assert!(should_skip_iface("wlan0", &["wlan".into()]));
    assert!(should_skip_iface("WLAN0", &["WLAN".into()]));
    assert!(should_skip_iface("wlan0", &["wlan".into(), "wlp".into()]));
    assert!(should_skip_iface("wlp3s0", &["wlan".into(), "wlp".into()]));
    // An empty/blank entry in the skip list matches nothing.
    assert!(!should_skip_iface("wlan0", &["".into()]));
    assert!(!should_skip_iface("eth0", &["wlan".into()]));
    assert!(!should_skip_iface("wlp3s0", &["wlan".into()]));
}

#[test]
fn allowlist_empty_means_all() {
    assert!(is_allowed_iface("eth0", &[]));
    assert!(is_allowed_iface("wlan0", &[]));
}

#[test]
fn allowlist_prefix_match() {
    assert!(is_allowed_iface("eth0", &["eth".into()]));
    assert!(is_allowed_iface("ETH0", &["eth".into()]));
    assert!(!is_allowed_iface("wlan0", &["eth".into()]));
    assert!(!is_allowed_iface("eth0", &["".into()]));
}

#[test]
fn link_ready_requires_running_or_operstate_up() {
    // IFF_UP alone after suspend is not a live link.
    assert!(!iface_link_ready(libc::IFF_UP as u32, "down"));
    assert!(!iface_link_ready(libc::IFF_UP as u32, "dormant"));
    assert!(!iface_link_ready(libc::IFF_UP as u32, "unknown"));
    // IFF_RUNNING is sufficient even if operstate is unknown (dummy).
    assert!(iface_link_ready(libc::IFF_RUNNING as u32, "unknown"));
    assert!(iface_link_ready(
        (libc::IFF_UP | libc::IFF_RUNNING) as u32,
        "down"
    ));
    // operstate=up covers drivers that omit IFF_RUNNING.
    assert!(iface_link_ready(libc::IFF_UP as u32, "up"));
    assert!(iface_link_ready(0, "up"));
    assert!(iface_link_ready(0, "UP"));
    assert!(!iface_link_ready(0, "down"));
}

#[test]
fn dcc_entry_has_proto_txt() {
    let e = dcc_service_entry(
        "hub1",
        "_z21._udp",
        "udp",
        21105,
        2,
        5,
        "Klubowa",
        Some(258_002_005),
        None,
    );
    let txt = e.txt.as_ref().unwrap();
    assert_eq!(txt.get("proto").unwrap(), "udp");
    assert_eq!(txt.get("layoutId").unwrap(), "2");
    assert_eq!(txt.get("commandStationId").unwrap(), "5");
    assert_eq!(txt.get("layoutName").unwrap(), "Klubowa");
    assert_eq!(txt.get("serial").unwrap(), "258002005");
    assert_eq!(e.host, None);
}

#[test]
fn dcc_entry_keeps_configured_host() {
    let e = dcc_service_entry(
        "hub1",
        "_withrottle._tcp",
        "tcp",
        12090,
        1,
        1,
        "",
        None,
        Some("bigfred"),
    );
    assert_eq!(e.host.as_deref(), Some("bigfred"));
}

#[test]
fn dcc_entry_blank_host_is_none() {
    let e = dcc_service_entry(
        "hub1",
        "_withrottle._tcp",
        "tcp",
        12090,
        1,
        1,
        "",
        None,
        Some("  "),
    );
    assert_eq!(e.host, None);
}

#[test]
fn iface_name_relevant_skips_lo_docker_and_configured() {
    assert!(!iface_name_relevant("lo", &[], &[]));
    assert!(!iface_name_relevant("docker0", &[], &[]));
    assert!(!iface_name_relevant("wlan0", &[], &["wlan".into()]));
    assert!(iface_name_relevant("eth0", &[], &["wlan".into()]));
    assert!(iface_name_relevant("wlan0", &[], &[]));
}

#[test]
fn preferred_addrs_are_sorted_and_stable() {
    let ifaces = sample_ifaces();
    let a = preferred_ipv4_ifaces(&ifaces, &[], &[]);
    let b = preferred_ipv4_ifaces(&ifaces, &[], &[]);
    assert_eq!(a, b, "IPv4 iface list must be deterministic");
    let v6a = preferred_ipv6_addrs(&ifaces, &[], &[]);
    let v6b = preferred_ipv6_addrs(&ifaces, &[], &[]);
    assert_eq!(v6a, v6b, "IPv6 addr list must be deterministic");
    for window in a.windows(2) {
        assert!(
            (&window[0].iface, &window[0].addr.bits) <= (&window[1].iface, &window[1].addr.bits),
            "IPv4 list not sorted: {a:?}"
        );
    }
    assert_eq!(
        a,
        vec![
            IfaceAddr4 {
                iface: "eth0".into(),
                addr: Ipv4Addr::new(192, 168, 0, 5),
                mask: Ipv4Addr::new(255, 255, 255, 0),
                ifindex: 2,
            },
            IfaceAddr4 {
                iface: "wlan0".into(),
                addr: Ipv4Addr::new(192, 168, 1, 10),
                mask: Ipv4Addr::new(255, 255, 255, 0),
                ifindex: 3,
            },
            IfaceAddr4 {
                iface: "wlan0".into(),
                addr: Ipv4Addr::new(192, 168, 1, 20),
                mask: Ipv4Addr::new(255, 255, 255, 0),
                ifindex: 3,
            },
        ]
    );
    let ends: Vec<u128> = v6a
        .iter()
        .map(|x: &IfaceAddr6| x.addr.bits % 0x1_0000)
        .collect();
    assert_eq!(ends, vec![9, 2, 7]);
}

#[test]
fn lists_of_interfaces_choose_addresses() {
    let ifaces = sample_ifaces();
    assert_eq!(preferred_iface_indexes(&ifaces, &[], &[]), vec![3, 2]);
    assert_eq!(
        preferred_ipv4_addrs(&ifaces, &["eth".into()], &[]),
        vec![Ipv4Addr::new(192, 168, 0, 5)]
    );
    // A prefix that is to be skipped wins over the allowlist.
    assert!(preferred_ipv4_addrs(&ifaces, &["eth".into()], &["eth".into()]).is_empty());
    // Container interfaces are not used even where they are asked for.
    assert!(!has_usable_iface(&ifaces, &["docker".into()], &[]));
    assert!(has_usable_iface(&ifaces, &[], &[]));
    assert_eq!(
        primary_ip(&ifaces, &[], &[]),
        Some(IpAddr::V4(Ipv4Addr::new(192, 168, 0, 5)))
    );
    assert_eq!(primary_ip(&[], &[], &[]), None);
}

#[test]
fn loopback_and_link_local_addresses_are_left_out() {
    let mut lo = iface("eth0", 2, &[], &[]);
    lo.ipv4 = vec![(Ipv4Addr::new(127, 0, 0, 1), Ipv4Addr::new(255, 0, 0, 0))];
    lo.ipv6 = vec![
        Ipv6Addr::new(0, 0, 0, 0, 0, 0, 0, 1),
        Ipv6Addr::new(0xfe80, 0, 0, 0, 0, 0, 0, 1),
    ];
    assert!(preferred_ipv4_ifaces(&[lo], &[], &[]).is_empty());
}

#[test]
fn interfaces_are_read_from_files_and_addresses() {
    assert_eq!(IFF_RUNNING, libc::IFF_RUNNING as u32);
    assert_eq!(IFF_LOOPBACK, libc::IFF_LOOPBACK as u32);
    let raw = vec![RawIface {
        name: "eth0".into(),
        operstate: "up\n".into(),
        flags: "0x1043\n".into(),
        ifindex: Some("2\n".into()),
    }];
    let addrs = vec![
        RawAddr::V4 {
            iface: "eth0".into(),
            addr: Ipv4Addr::new(10, 0, 0, 1),
            mask: Some(Ipv4Addr::new(255, 0, 0, 0)),
        },
        RawAddr::V6 {
            iface: "eth1".into(),
            addr: Ipv6Addr::new(0x2001, 0xdb8, 0, 0, 0, 0, 0, 1),
        },
    ];
    let (v4, v6) = addrs_for_iface("eth0", &addrs);
    assert_eq!(
        v4,
        vec![(Ipv4Addr::new(10, 0, 0, 1), Ipv4Addr::new(255, 0, 0, 0))]
    );
    assert!(v6.is_empty());
    let list = list_interfaces(&raw, &addrs);
    assert_eq!(list.len(), 1);
    assert!(list[0].is_up);
    assert!(!list[0].is_loopback);
    assert_eq!(list[0].ifindex, 2);
    assert_eq!(list[0].ipv4.len(), 1);
    let lo = iface_info("lo".into(), "unknown", "0x49", Some("1"), vec![], vec![]);
    assert!(lo.is_loopback);
}

#[test]
fn names_with_domain_stay_as_they_are() {
    for host in ["bigfred", " a.b. ", "", ".local", "x.local.."] {
        let once = normalize_hostname(host);
        assert!(once.ends_with(".local."), "{once}");
        assert_eq!(normalize_hostname(&once), once);
    }
    for type_ in ["_http._tcp", " _z21._udp. ", ""] {
        let once = normalize_service_type(type_);
        assert!(once.ends_with(".local."), "{once}");
        assert_eq!(normalize_service_type(&once), once);
    }
}

#[test]
fn plan_names_host_addresses_and_txt() {
    let mut e = entry("web", "_http._tcp", None);
    let mut txt = TextMap::new();
    txt.insert("path".to_string(), "/".to_string());
    e.txt = Some(txt);
    let plan = plan_service(
        &e,
        None,
        "hub",
        &[Ipv4Addr::new(10, 0, 0, 1)],
        &[Ipv6Addr::new(0x2001, 0xdb8, 0, 0, 0, 0, 0, 1)],
    );
    assert_eq!(plan.full_type, "_http._tcp.local.");
    assert_eq!(plan.instance, "web");
    assert_eq!(plan.host, "hub.local.");
    assert_eq!(plan.addresses, "2001:db8::1,10.0.0.1");
    assert_eq!(plan.port, 8080);
    assert_eq!(plan.txt, vec![("path".to_string(), "/".to_string())]);
    let named = plan_service(&entry("web", "_http._tcp", Some("x")), None, "hub", &[], &[]);
    assert_eq!(named.host, "x.local.");
    assert_eq!(named.addresses, "");
}

#[test]
fn registration_builds_the_service() {
    let mut p = MdnsPublisher::new();
    assert!(p.needs_daemon());
    let e = entry("web", "_http._tcp", Some("hub"));
    let v4 = [Ipv4Addr::new(10, 0, 0, 1)];
    assert!(p.register(&e, None, "m", &v4, &[]).is_err());
    p.started();
    assert!(!p.needs_daemon());
    let a = p.register(&e, None, "m", &v4, &[]).expect("register");
    assert_eq!(a.fullname, "web._http._tcp.local.");
    assert_eq!(a.fullname, MdnsPublisher::fullname("web", "_http._tcp"));
    assert_eq!(a.info.get_fullname(), "web._http._tcp.local.");
    assert_eq!(a.info.get_hostname(), "hub.local.");
    assert_eq!(a.info.get_port(), 8080);
    assert_eq!(a.info.get_addresses().len(), 1);
    assert_eq!(
        a.info.get_addresses_v4().iter().next().unwrap().to_string(),
        "10.0.0.1"
    );
    assert!(!a.info.is_addr_auto());
    p.registered(a.fullname);
    assert_eq!(
        p.registered_names(),
        vec!["web._http._tcp.local.".to_string()]
    );
    // Without an address the daemon finds the addresses itself.
    let auto = p.register(&e, None, "m", &[], &[]).expect("register");
    assert!(auto.info.is_addr_auto());
    p.unregistered("web._http._tcp.local.");
    assert!(p.registered_names().is_empty());
    p.registered("x".to_string());
    assert_eq!(p.shutdown(), vec!["x".to_string()]);
    assert!(p.needs_daemon());
}

#[test]
fn too_long_a_property_is_refused() {
    let mut p = MdnsPublisher::new();
    p.started();
    let mut e = entry("web", "_http._tcp", Some("hub"));
    let mut txt = TextMap::new();
    txt.insert("path".to_string(), "x".repeat(250));
    e.txt = Some(txt);
    let v4 = [Ipv4Addr::new(10, 0, 0, 1)];
    assert!(p.register(&e, None, "m", &v4, &[]).is_ok());
    let mut txt = TextMap::new();
    txt.insert("path".to_string(), "x".repeat(251));
    e.txt = Some(txt);
    assert!(p.register(&e, None, "m", &v4, &[]).is_err());
}
