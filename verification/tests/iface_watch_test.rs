use microdns::bytes::{order_of_one, read16, read32, ByteOrder};
use microdns::iface_watch::{
    name_for_ifindex, netlink_is_relevant, netlink_matters_in, parse_netlink_ifaces,
    parse_netlink_in, WatchEvent, WatchPhase, Watcher, DEBOUNCE_MS, IFACE_CHANGE_CAPACITY, IFADDRMSG_LEN, IFA_LABEL, IFINFOMSG_LEN, IFLA_IFNAME,
    NLMSG_HDRLEN, RTM_DELADDR, RTM_DELLINK, RTM_GETLINK, RTM_NEWADDR, RTM_NEWLINK,
};
use microdns::sys::{
    boottime_monotonic_skew, parse_pktinfo_ifindex, parse_pktinfo_in, suspend_detected, ControlMessage, IPPROTO_IP,
    IPPROTO_IPV6, IPV6_PKTINFO, IP_PKTINFO,
};
use microdns::time::Duration;

fn encode_rta(rta_type: u16, data: &[u8]) -> Vec<u8> {
    let len = (4 + data.len()) as u16;
    let mut out = Vec::new();
    out.extend_from_slice(&len.to_ne_bytes());
    out.extend_from_slice(&rta_type.to_ne_bytes());
    out.extend_from_slice(data);
    while out.len() % 4 != 0 {
        out.push(0);
    }
    out
}

fn encode_nlmsg(nlmsg_type: u16, payload: &[u8]) -> Vec<u8> {
    let len = NLMSG_HDRLEN + payload.len();
    let mut out = Vec::new();
    out.extend_from_slice(&(len as u32).to_ne_bytes());
    out.extend_from_slice(&nlmsg_type.to_ne_bytes());
    out.extend_from_slice(&0u16.to_ne_bytes()); // flags
    out.extend_from_slice(&0u32.to_ne_bytes()); // seq
    out.extend_from_slice(&0u32.to_ne_bytes()); // pid
    out.extend_from_slice(payload);
    out
}

fn ifinfomsg(ifindex: i32) -> Vec<u8> {
    let mut p = vec![0u8; IFINFOMSG_LEN];
    p[4..8].copy_from_slice(&ifindex.to_ne_bytes());
    p
}

fn ifaddrmsg(ifindex: u32) -> Vec<u8> {
    let mut p = vec![0u8; IFADDRMSG_LEN];
    p[4..8].copy_from_slice(&ifindex.to_ne_bytes());
    p
}

fn link_event(ifindex: i32, name: &str) -> Vec<u8> {
    let mut payload = ifinfomsg(ifindex);
    let mut name_bytes = name.as_bytes().to_vec();
    name_bytes.push(0);
    payload.extend_from_slice(&encode_rta(libc::IFLA_IFNAME, &name_bytes));
    encode_nlmsg(libc::RTM_NEWLINK, &payload)
}

fn addr_event(ifindex: u32, name: &str) -> Vec<u8> {
    let mut payload = ifaddrmsg(ifindex);
    let mut name_bytes = name.as_bytes().to_vec();
    name_bytes.push(0);
    payload.extend_from_slice(&encode_rta(libc::IFA_LABEL, &name_bytes));
    encode_nlmsg(libc::RTM_NEWADDR, &payload)
}

#[test]
fn parse_newlink_extracts_name() {
    let buf = link_event(2, "eth0");
    assert_eq!(parse_netlink_ifaces(&buf), vec![(2, "eth0".into())]);
}

#[test]
fn parse_newaddr_extracts_label() {
    let buf = addr_event(3, "wlan0");
    assert_eq!(parse_netlink_ifaces(&buf), vec![(3, "wlan0".into())]);
}

#[test]
fn skipped_wlan_is_not_relevant() {
    let buf = link_event(3, "wlan0");
    assert!(!netlink_is_relevant(&buf, &[], &["wlan".into()], &[]));
    assert!(netlink_is_relevant(&buf, &[], &[], &[]));
}

#[test]
fn docker_veth_not_relevant() {
    assert!(!netlink_is_relevant(
        &link_event(10, "veth0abc"),
        &[],
        &[],
        &[]
    ));
    assert!(!netlink_is_relevant(
        &link_event(11, "docker0"),
        &[],
        &[],
        &[]
    ));
    assert!(!netlink_is_relevant(&link_event(1, "lo"), &[], &[], &[]));
}

#[test]
fn eth_is_relevant_by_default() {
    assert!(netlink_is_relevant(&link_event(2, "eth0"), &[], &[], &[]));
    assert!(netlink_is_relevant(
        &link_event(2, "eth0"),
        &["eth".into()],
        &[],
        &[]
    ));
    assert!(!netlink_is_relevant(
        &link_event(2, "eth0"),
        &["wlan".into()],
        &[],
        &[]
    ));
}

#[test]
fn several_messages_in_one_buffer() {
    let mut buf = link_event(1, "lo");
    buf.extend_from_slice(&addr_event(2, "eth0"));
    assert_eq!(
        parse_netlink_ifaces(&buf),
        vec![(1, "lo".into()), (2, "eth0".into())]
    );
    assert!(netlink_is_relevant(&buf, &[], &[], &[]));
}

#[test]
fn truncated_messages_end_the_scan() {
    let buf = link_event(2, "eth0");
    assert!(parse_netlink_ifaces(&buf[0..10]).is_empty());
    assert!(parse_netlink_ifaces(&[]).is_empty());
    assert!(!netlink_is_relevant(&[], &[], &[], &[]));
}

#[test]
fn other_message_types_are_ignored() {
    let buf = encode_nlmsg(libc::RTM_NEWROUTE, &ifinfomsg(2));
    assert!(parse_netlink_ifaces(&buf).is_empty());
}

#[test]
fn missing_names_are_looked_up() {
    let buf = encode_nlmsg(libc::RTM_DELLINK, &ifinfomsg(7));
    let known = vec![("veth1".to_string(), "7\n".to_string())];
    assert_eq!(name_for_ifindex(&known, 7), Some("veth1".to_string()));
    assert_eq!(name_for_ifindex(&known, 8), None);
    assert!(!netlink_is_relevant(&buf, &[], &[], &known));
    // An interface whose name is not known may be one of ours.
    assert!(netlink_is_relevant(&buf, &[], &[], &[]));
}

#[test]
fn message_types_match_the_kernel() {
    assert_eq!(RTM_NEWLINK, libc::RTM_NEWLINK);
    assert_eq!(RTM_DELLINK, libc::RTM_DELLINK);
    assert_eq!(RTM_GETLINK, libc::RTM_GETLINK);
    assert_eq!(RTM_NEWADDR, libc::RTM_NEWADDR);
    assert_eq!(RTM_DELADDR, libc::RTM_DELADDR);
    assert_eq!(IFLA_IFNAME, libc::IFLA_IFNAME);
    assert_eq!(IFA_LABEL, libc::IFA_LABEL);
    assert_eq!(IPPROTO_IP, libc::IPPROTO_IP);
    assert_eq!(IP_PKTINFO, libc::IP_PKTINFO);
    assert_eq!(IPPROTO_IPV6, libc::IPPROTO_IPV6);
    assert_eq!(IPV6_PKTINFO, libc::IPV6_PKTINFO);
}

#[test]
fn iface_change_channel_is_bounded() {
    const { assert!(IFACE_CHANGE_CAPACITY > 0) };
}

#[test]
fn suspend_detected_on_boottime_skew_jump() {
    let prev = Duration::from_millis(10);
    let plus = |d: Duration| Duration {
        nanos: prev.nanos + d.nanos,
    };
    assert!(!suspend_detected(prev, prev));
    assert!(!suspend_detected(prev, plus(Duration::from_millis(500))));
    assert!(suspend_detected(prev, plus(Duration::from_secs(2))));
    assert!(suspend_detected(prev, plus(Duration::from_secs(60))));
    assert!(!suspend_detected(
        Duration::from_secs(10),
        Duration::from_secs(1)
    ));
}

#[test]
fn sleep_of_the_machine_shows_in_the_skew() {
    let before = boottime_monotonic_skew(
        Some(Duration::from_secs(100)),
        Some(Duration::from_secs(90)),
    );
    assert_eq!(before, Duration::from_secs(10));
    let after = boottime_monotonic_skew(
        Some(Duration::from_secs(400)),
        Some(Duration::from_secs(91)),
    );
    assert!(suspend_detected(before, after));
    assert_eq!(
        boottime_monotonic_skew(Some(Duration::from_secs(1)), Some(Duration::from_secs(2))),
        Duration::from_secs(0)
    );
    assert_eq!(
        boottime_monotonic_skew(None, Some(Duration::from_secs(2))),
        Duration::from_secs(0)
    );
}

#[test]
fn control_messages_name_the_interface() {
    // struct in_pktinfo { ifindex, spec_dst, addr }
    let mut v4 = 3u32.to_ne_bytes().to_vec();
    v4.extend_from_slice(&[0; 8]);
    // struct in6_pktinfo { addr, ifindex }
    let mut v6 = vec![0u8; 16];
    v6.extend_from_slice(&5u32.to_ne_bytes());
    let msgs = vec![
        ControlMessage {
            level: 1,
            kind: 1,
            data: vec![9, 9, 9, 9],
        },
        ControlMessage {
            level: libc::IPPROTO_IP,
            kind: libc::IP_PKTINFO,
            data: v4,
        },
        ControlMessage {
            level: libc::IPPROTO_IPV6,
            kind: libc::IPV6_PKTINFO,
            data: v6,
        },
    ];
    assert_eq!(parse_pktinfo_ifindex(&msgs, false), Some(3));
    assert_eq!(parse_pktinfo_ifindex(&msgs, true), Some(5));
    assert_eq!(parse_pktinfo_ifindex(&[], false), None);
}

/// A link message for `eth0` with index 2, in both byte orders.
const LITTLE_LINK: [u8; 44] = [
    44, 0, 0, 0, 16, 0, 0, 0, 0, 0, 0, 0, 0, 0, 0, 0, // header
    0, 0, 0, 0, 2, 0, 0, 0, 0, 0, 0, 0, 0, 0, 0, 0, // ifinfomsg
    9, 0, 3, 0, b'e', b't', b'h', b'0', 0, 0, 0, 0, // IFLA_IFNAME
];

const BIG_LINK: [u8; 44] = [
    0, 0, 0, 44, 0, 16, 0, 0, 0, 0, 0, 0, 0, 0, 0, 0, // header
    0, 0, 0, 0, 0, 0, 0, 2, 0, 0, 0, 0, 0, 0, 0, 0, // ifinfomsg
    0, 9, 0, 3, b'e', b't', b'h', b'0', 0, 0, 0, 0, // IFLA_IFNAME
];

#[test]
fn messages_are_read_in_either_byte_order() {
    let eth0 = vec![(2, "eth0".to_string())];
    assert_eq!(parse_netlink_in(&LITTLE_LINK, ByteOrder::Little), eth0);
    assert_eq!(parse_netlink_in(&BIG_LINK, ByteOrder::Big), eth0);
    assert!(parse_netlink_in(&LITTLE_LINK, ByteOrder::Big).is_empty());
    assert!(parse_netlink_in(&BIG_LINK, ByteOrder::Little).is_empty());
    let wlan = ["wlan".to_string()];
    for (buf, order) in [
        (&LITTLE_LINK, ByteOrder::Little),
        (&BIG_LINK, ByteOrder::Big),
    ] {
        assert!(netlink_matters_in(buf, order, &[], &[], &[]));
        assert!(!netlink_matters_in(buf, order, &wlan, &[], &[]));
    }
    let v4 = |data: [u8; 4]| {
        vec![ControlMessage {
            level: IPPROTO_IP,
            kind: IP_PKTINFO,
            data: data.to_vec(),
        }]
    };
    assert_eq!(
        parse_pktinfo_in(&v4([3, 1, 0, 0]), false, ByteOrder::Little),
        Some(259)
    );
    assert_eq!(
        parse_pktinfo_in(&v4([0, 0, 1, 3]), false, ByteOrder::Big),
        Some(259)
    );
    assert_eq!(
        parse_pktinfo_in(&v4([0, 0, 1, 3]), true, ByteOrder::Big),
        None
    );
}

#[test]
fn the_machine_tells_its_byte_order() {
    assert_eq!(order_of_one(&[1, 0]), ByteOrder::Little);
    assert_eq!(order_of_one(&[0, 1]), ByteOrder::Big);
    let native = order_of_one(&1u16.to_ne_bytes());
    assert_eq!(read16(&0x1234u16.to_ne_bytes(), 0, native), 0x1234);
    assert_eq!(
        read32(&0x1234_5678u32.to_ne_bytes(), 0, native),
        0x1234_5678
    );
    for buf in [&LITTLE_LINK, &BIG_LINK] {
        assert_eq!(parse_netlink_ifaces(buf), parse_netlink_in(buf, native));
    }
}

#[test]
fn numbers_read_back_in_either_byte_order() {
    let (n, m) = (0xbeefu16, 0xdead_beefu32);
    assert_eq!(read16(&n.to_le_bytes(), 0, ByteOrder::Little), n);
    assert_eq!(read16(&n.to_be_bytes(), 0, ByteOrder::Big), n);
    assert_eq!(read32(&m.to_le_bytes(), 0, ByteOrder::Little), m);
    assert_eq!(read32(&m.to_be_bytes(), 0, ByteOrder::Big), m);
}

#[test]
fn a_burst_of_events_is_one_signal() {
    let ms = |n: u64| n * 1_000_000;
    let mut w = Watcher::new();
    assert_eq!(w.phase, WatchPhase::Open);
    w.advance(WatchEvent::Opened {
        ok: false,
        now: ms(0),
    });
    assert_eq!(w.phase, WatchPhase::Rest);
    assert!(w.warned);
    w.advance(WatchEvent::Rested);
    w.advance(WatchEvent::Opened {
        ok: true,
        now: ms(3000),
    });
    assert_eq!(w.phase, WatchPhase::Receive);
    w.advance(WatchEvent::Received {
        relevant: false,
        now: ms(9000),
    });
    assert_eq!(w.phase, WatchPhase::Receive);
    w.advance(WatchEvent::Received {
        relevant: true,
        now: ms(10_000),
    });
    w.advance(WatchEvent::Received {
        relevant: true,
        now: ms(10_300),
    });
    w.advance(WatchEvent::Received {
        relevant: false,
        now: ms(10_300 + DEBOUNCE_MS - 1),
    });
    assert_eq!(w.phase, WatchPhase::Receive);
    w.advance(WatchEvent::Received {
        relevant: false,
        now: ms(10_300 + DEBOUNCE_MS),
    });
    assert_eq!(w.phase, WatchPhase::Drain);
    w.advance(WatchEvent::Drained { more: true });
    w.advance(WatchEvent::Drained { more: false });
    assert_eq!(w.phase, WatchPhase::Signal);
    w.advance(WatchEvent::Signaled { delivered: true });
    assert_eq!(w.phase, WatchPhase::Receive);
    assert!(!w.pending);
    w.advance(WatchEvent::Failed);
    assert_eq!(w.phase, WatchPhase::Open);
}
