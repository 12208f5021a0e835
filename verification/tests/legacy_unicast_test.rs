//! Tests for the legacy unicast mDNS responder.

use microdns::legacy_unicast::{
    answer_packet, build_response, choose_v4, choose_v4_for_iface, choose_v6_for_iface,
    hosts_match, memberships_need_refresh, parse_query, should_replace_memberships, AnswerSet,
    IfaceAddr4, IfaceAddr6, MembershipRefresh, ParsedQuery, HEADER_QR_AA, LEGACY_TTL, QTYPE_A,
    QTYPE_AAAA, QTYPE_ANY,
};
use microdns::net::{IpAddr, Ipv4Addr, Ipv6Addr};

fn encode_name(name: &str) -> Vec<u8> {
    let trimmed = name.trim_end_matches('.');
    let mut out = Vec::new();
    for label in trimmed.split('.') {
        let b = label.as_bytes();
        out.push(b.len() as u8);
        out.extend_from_slice(b);
    }
    out.push(0);
    out
}

fn build_query(id: u16, qname: &str, qtype: u16, qclass: u16) -> Vec<u8> {
    let name = encode_name(qname);
    let mut pkt = Vec::with_capacity(12 + name.len() + 4);
    pkt.extend_from_slice(&id.to_be_bytes());
    pkt.extend_from_slice(&0u16.to_be_bytes()); // flags
    pkt.extend_from_slice(&1u16.to_be_bytes()); // qdcount
    pkt.extend_from_slice(&0u16.to_be_bytes());
    pkt.extend_from_slice(&0u16.to_be_bytes());
    pkt.extend_from_slice(&0u16.to_be_bytes());
    pkt.extend_from_slice(&name);
    pkt.extend_from_slice(&qtype.to_be_bytes());
    pkt.extend_from_slice(&qclass.to_be_bytes());
    pkt
}

fn sample_answers() -> AnswerSet {
    AnswerSet {
        hosts: vec!["bigfred.local.".into()],
        v4: vec![
            IfaceAddr4 {
                iface: "eth0".into(),
                addr: Ipv4Addr::new(192, 168, 1, 10),
                mask: Ipv4Addr::new(255, 255, 255, 0),
                ifindex: 2, // eth0
            },
            IfaceAddr4 {
                iface: "wlan0".into(),
                addr: Ipv4Addr::new(10, 0, 0, 5),
                mask: Ipv4Addr::new(255, 0, 0, 0),
                ifindex: 3, // wlan0
            },
        ],
        v6: vec![IfaceAddr6 {
            iface: "eth0".into(),
            addr: Ipv6Addr::new(0x2001, 0xdb8, 0, 0, 0, 0, 0, 1),
            ifindex: 2,
        }],
        skip_interfaces: Vec::new(),
        interfaces: Vec::new(),
    }
}

#[test]
fn parse_rejects_response_qr() {
    let mut pkt = build_query(1, "bigfred.local.", QTYPE_A, 1);
    pkt[2] = 0x80; // QR
    assert!(parse_query(&pkt).is_none());
}

#[test]
fn parse_accepts_mdns_multicast_query() {
    // Multicast queries (src port 5353) are answered; content selects per-iface IP.
    let pkt = build_query(1, "bigfred.local.", QTYPE_A, 1);
    let q = parse_query(&pkt).expect("parse");
    assert_eq!(q.qtype, QTYPE_A);
}

#[test]
fn parse_extracts_android_style_query() {
    let pkt = build_query(11110, "bigfred.local.", QTYPE_A, 1);
    let q = parse_query(&pkt).expect("parse");
    assert_eq!(
        q,
        ParsedQuery {
            id: 11110,
            qname: "bigfred.local.".into(),
            qtype: QTYPE_A,
            qclass: 1,
        }
    );
}

#[test]
fn parse_rejects_non_in_class() {
    let pkt = build_query(1, "bigfred.local.", QTYPE_A, 2);
    assert!(parse_query(&pkt).is_none());
}

#[test]
fn parse_accepts_qu_bit_in_class() {
    let pkt = build_query(1, "bigfred.local.", QTYPE_A, 0x8001);
    let q = parse_query(&pkt).expect("parse");
    assert_eq!(q.qclass, 0x8001);
}

#[test]
fn hosts_match_case_insensitive() {
    assert!(hosts_match(&["BigFred.Local.".into()], "bigfred.local"));
    assert!(!hosts_match(&["bigfred.local.".into()], "other.local."));
}

#[test]
fn choose_v4_prefers_same_subnet() {
    let answers = sample_answers();
    let chosen = choose_v4(&answers, Ipv4Addr::new(192, 168, 1, 50));
    assert_eq!(chosen, vec![Ipv4Addr::new(192, 168, 1, 10)]);
}

#[test]
fn choose_v4_falls_back_to_all() {
    let answers = sample_answers();
    let chosen = choose_v4(&answers, Ipv4Addr::new(172, 16, 0, 1));
    assert_eq!(
        chosen,
        vec![Ipv4Addr::new(192, 168, 1, 10), Ipv4Addr::new(10, 0, 0, 5),]
    );
}

#[test]
fn choose_v4_for_iface_prefers_receiving_iface() {
    let answers = sample_answers();
    // Query from eth subnet but arrived on wlan (ifindex 3) → answer wlan IP.
    let chosen = choose_v4_for_iface(&answers, Ipv4Addr::new(192, 168, 1, 50), Some(3));
    assert_eq!(chosen, vec![Ipv4Addr::new(10, 0, 0, 5)]);
}

#[test]
fn choose_v4_for_iface_same_subnet_within_iface() {
    let mut answers = sample_answers();
    answers.v4.push(IfaceAddr4 {
        iface: "wlan0".into(),
        addr: Ipv4Addr::new(10, 1, 0, 5),
        mask: Ipv4Addr::new(255, 255, 0, 0),
        ifindex: 3,
    });
    let chosen = choose_v4_for_iface(&answers, Ipv4Addr::new(10, 0, 0, 99), Some(3));
    assert_eq!(chosen, vec![Ipv4Addr::new(10, 0, 0, 5)]);
}

#[test]
fn choose_v4_for_iface_falls_back_without_ifindex() {
    let answers = sample_answers();
    let chosen = choose_v4_for_iface(&answers, Ipv4Addr::new(192, 168, 1, 50), None);
    assert_eq!(chosen, vec![Ipv4Addr::new(192, 168, 1, 10)]);
}

#[test]
fn choose_v6_for_iface_prefers_receiving_iface() {
    let mut answers = sample_answers();
    answers.v6.push(IfaceAddr6 {
        iface: "wlan0".into(),
        addr: Ipv6Addr::new(0x2001, 0xdb8, 0, 0, 0, 0, 0, 2),
        ifindex: 3,
    });
    let chosen = choose_v6_for_iface(&answers, Some(3));
    assert_eq!(chosen, vec![Ipv6Addr::new(0x2001, 0xdb8, 0, 0, 0, 0, 0, 2)]);
}

#[test]
fn build_echoes_id_and_ttl() {
    let answers = sample_answers();
    let query = ParsedQuery {
        id: 0x2b76,
        qname: "bigfred.local.".into(),
        qtype: QTYPE_A,
        qclass: 0x8001,
    };
    let resp = build_response(
        &query,
        &answers,
        IpAddr::V4(Ipv4Addr::new(192, 168, 1, 50)),
        Some(2),
    )
    .expect("response");
    assert_eq!(u16::from_be_bytes([resp[0], resp[1]]), 0x2b76);
    assert_eq!(u16::from_be_bytes([resp[2], resp[3]]), 0x8400);
    assert_eq!(u16::from_be_bytes([resp[4], resp[5]]), 1); // qdcount
    assert_eq!(u16::from_be_bytes([resp[6], resp[7]]), 1); // ancount

    // Find TTL in first answer: after echoed question.
    // Walk past question name + type/class.
    let mut pos = 12usize;
    while pos < resp.len() && resp[pos] != 0 {
        pos += 1 + resp[pos] as usize;
    }
    pos += 1; // root
    pos += 4; // qtype + qclass
              // answer name
    while pos < resp.len() && resp[pos] != 0 {
        pos += 1 + resp[pos] as usize;
    }
    pos += 1;
    let rtype = u16::from_be_bytes([resp[pos], resp[pos + 1]]);
    let rclass = u16::from_be_bytes([resp[pos + 2], resp[pos + 3]]);
    let ttl = u32::from_be_bytes([resp[pos + 4], resp[pos + 5], resp[pos + 6], resp[pos + 7]]);
    assert_eq!(rtype, QTYPE_A);
    assert_eq!(rclass, 0x0001); // no cache-flush
    assert_eq!(ttl, LEGACY_TTL);

    // Question class should have QU cleared.
    let mut qpos = 12usize;
    while qpos < resp.len() && resp[qpos] != 0 {
        qpos += 1 + resp[qpos] as usize;
    }
    qpos += 1 + 2; // root + qtype
    let echoed_qclass = u16::from_be_bytes([resp[qpos], resp[qpos + 1]]);
    assert_eq!(echoed_qclass, 0x0001);
}

#[test]
fn build_none_for_unknown_host() {
    let answers = sample_answers();
    let query = ParsedQuery {
        id: 1,
        qname: "other.local.".into(),
        qtype: QTYPE_A,
        qclass: 1,
    };
    assert!(build_response(&query, &answers, IpAddr::V4(Ipv4Addr::new(127, 0, 0, 1)), None).is_none());
}

#[test]
fn build_aaaa_none_when_empty() {
    let mut answers = sample_answers();
    answers.v6.clear();
    let query = ParsedQuery {
        id: 1,
        qname: "bigfred.local.".into(),
        qtype: QTYPE_AAAA,
        qclass: 1,
    };
    assert!(build_response(&query, &answers, IpAddr::V4(Ipv4Addr::new(127, 0, 0, 1)), None).is_none());
}

#[test]
fn build_any_includes_a_and_aaaa() {
    let answers = sample_answers();
    let query = ParsedQuery {
        id: 9,
        qname: "bigfred.local.".into(),
        qtype: QTYPE_ANY,
        qclass: 1,
    };
    let resp = build_response(
        &query,
        &answers,
        IpAddr::V4(Ipv4Addr::new(172, 16, 0, 1)),
        None,
    )
    .expect("response");
    assert_eq!(u16::from_be_bytes([resp[6], resp[7]]), 3); // 2 A + 1 AAAA
}

#[test]
fn same_ips_still_refresh_when_epoch_changes() {
    // Suspend/resume and LINK flaps keep the address set identical; the
    // refresh epoch is what forces leave+join of 224.0.0.251.
    assert!(!memberships_need_refresh(false, false));
    assert!(memberships_need_refresh(true, false));
    assert!(memberships_need_refresh(false, true));
    assert!(memberships_need_refresh(true, true));
}

#[test]
fn force_replaces_memberships_even_when_joined_matches() {
    let joined = vec![Ipv4Addr::new(192, 168, 1, 10)];
    let want = joined.clone();
    assert!(!should_replace_memberships(&joined, &want, false));
    assert!(should_replace_memberships(&joined, &want, true));
    let other = vec![Ipv4Addr::new(10, 0, 0, 1)];
    assert!(should_replace_memberships(&joined, &other, false));
}

#[test]
fn membership_refresh_rejoin_does_not_rebind() {
    let mut r = MembershipRefresh::new();
    assert_eq!(r.epoch(), 0);
    r.request_rejoin();
    assert_eq!(r.epoch(), 1);
    assert!(!r.take_rebind());
    r.request_rejoin();
    assert_eq!(r.epoch(), 2);
}

#[test]
fn membership_refresh_rebind_sets_flag_and_epoch() {
    let mut r = MembershipRefresh::new();
    r.request_rebind();
    assert_eq!(r.epoch(), 1);
    assert!(r.take_rebind());
    assert!(!r.take_rebind());
}

#[test]
fn queries_read_back_as_asked() {
    for qtype in [QTYPE_A, QTYPE_AAAA, QTYPE_ANY] {
        let q = parse_query(&build_query(7, "a.b.local.", qtype, 1)).expect("parse");
        assert_eq!(q.id, 7);
        assert_eq!(q.qname, "a.b.local.");
        assert_eq!(q.qtype, qtype);
    }
    let q = parse_query(&build_query(7, "A.b.LOCAL.", QTYPE_A, 1)).expect("parse");
    assert_eq!(q.qname, "a.b.local.");
    // A service query is left to the mDNS daemon.
    assert!(parse_query(&build_query(7, "a.b.local.", 12, 1)).is_none());
}

#[test]
fn damaged_queries_are_ignored() {
    let pkt = build_query(1, "bigfred.local.", QTYPE_A, 1);
    for n in 0..pkt.len() {
        assert!(parse_query(&pkt[0..n]).is_none(), "{n} bytes");
    }
    let mut none = pkt.clone();
    none[5] = 0;
    assert!(parse_query(&none).is_none());
}

#[test]
fn answers_are_no_queries() {
    let pkt = build_query(0x1234, "BIGFRED.local", QTYPE_A, 1);
    let from = IpAddr::V4(Ipv4Addr::new(192, 168, 1, 50));
    let resp = answer_packet(&pkt, &sample_answers(), from, None).expect("answer");
    assert_eq!(u16::from_be_bytes([resp[0], resp[1]]), 0x1234);
    assert_eq!(u16::from_be_bytes([resp[2], resp[3]]), HEADER_QR_AA);
    assert!(parse_query(&resp).is_none());
    assert!(answer_packet(&resp, &sample_answers(), from, None).is_none());
}

#[test]
fn answer_is_exact() {
    let query = ParsedQuery {
        id: 0x0102,
        qname: "a.local.".into(),
        qtype: QTYPE_A,
        qclass: 1,
    };
    let answers = AnswerSet {
        hosts: vec!["a.local.".into()],
        v4: vec![IfaceAddr4 {
            iface: "eth0".into(),
            addr: Ipv4Addr::new(10, 1, 2, 3),
            mask: Ipv4Addr::new(255, 0, 0, 0),
            ifindex: 2,
        }],
        ..AnswerSet::default()
    };
    let resp = build_response(&query, &answers, IpAddr::V4(Ipv4Addr::new(9, 9, 9, 9)), None);
    let mut want = vec![1, 2, 0x84, 0, 0, 1, 0, 1, 0, 0, 0, 0];
    let name = [1, b'a', 5, b'l', b'o', b'c', b'a', b'l', 0];
    want.extend_from_slice(&name);
    want.extend_from_slice(&[0, 1, 0, 1]);
    want.extend_from_slice(&name);
    want.extend_from_slice(&[0, 1, 0, 1, 0, 0, 0, 10, 0, 4, 10, 1, 2, 3]);
    assert_eq!(resp, Some(want));
}

#[test]
fn answers_stay_on_the_receiving_interface() {
    let answers = sample_answers();
    // No address on interface 9: all are looked at.
    assert_eq!(
        choose_v4_for_iface(&answers, Ipv4Addr::new(172, 16, 0, 1), Some(9)).len(),
        2
    );
    assert_eq!(
        choose_v6_for_iface(&answers, Some(2)),
        vec![Ipv6Addr::new(0x2001, 0xdb8, 0, 0, 0, 0, 0, 1)]
    );
    assert_eq!(choose_v6_for_iface(&answers, Some(9)).len(), 1);
}

#[test]
fn lookups_ignore_case_space_and_dot() {
    let hosts = ["bigfred.local.".to_string()];
    for name in ["BIGFRED.LOCAL", "bigfred.local.", " bigfred.local "] {
        assert!(hosts_match(&hosts, name), "{name:?}");
    }
    assert!(!hosts_match(&[], "bigfred.local."));
}

#[test]
fn clone_of_answers_is_equal() {
    assert_eq!(sample_answers().clone(), sample_answers());
}
