use microdns::dns::{encode_name, read_name};
use microdns::error::Error;
use microdns::net::{Ipv4Addr, Ipv6Addr};
use microdns::numeral::{parse_unsigned, to_decimal, to_hex, to_signed_decimal};
use microdns::order::{compare_text, sort, sort_distinct, Rank};
use microdns::text::{
    ends_with, join, lowercase, show_list, split_char, split_lines, split_words, starts_with, trim,
    trim_end_char,
};
use microdns::textmap::TextMap;

fn owned(parts: &[&str]) -> Vec<String> {
    parts.iter().map(|p| p.to_string()).collect()
}

#[test]
fn texts_behave_like_those_of_std() {
    for s in ["", " ", "\t a b\n", "a", "ab  c ", "x.y..z", "a\r\nb\n\nc", "\n", "a\r"] {
        assert_eq!(trim(s), s.trim(), "{s:?}");
        assert_eq!(split_char(s, '.'), owned(&s.split('.').collect::<Vec<_>>()));
        assert_eq!(join(&split_char(s, '.'), "."), s);
        assert_eq!(
            split_words(s),
            owned(&s.split_whitespace().collect::<Vec<_>>())
        );
        assert_eq!(split_lines(s), owned(&s.lines().collect::<Vec<_>>()));
        assert_eq!(trim_end_char(s, '.'), s.trim_end_matches('.'));
    }
    assert_eq!(lowercase("ABCxyz09_Z"), "abcxyz09_z");
    assert!(starts_with("wlan0", "wlan"));
    assert!(!starts_with("wl", "wlan"));
    assert!(ends_with("a.local", ".local"));
    assert!(!ends_with("local", ".local"));
    assert_eq!(join(&owned(&["a", "b", "c"]), ","), "a,b,c");
    assert_eq!(join(&[], ","), "");
}

#[test]
fn lists_are_shown_with_quotes() {
    let list = owned(&["a\"b", "c\\"]);
    assert_eq!(show_list(&list), format!("{list:?}"));
    assert_eq!(show_list(&[]), "[]");
}

#[test]
fn numerals_behave_like_those_of_std() {
    for s in ["0", "65535", "65536", "+7", "-1", "", "+", "x", "1 ", "00012"] {
        assert_eq!(
            parse_unsigned(s, 10, 0xffff),
            s.parse::<u16>().ok().map(u64::from),
            "{s:?}"
        );
    }
    assert_eq!(parse_unsigned("1F90", 16, 0xffff), Some(8080));
    assert_eq!(parse_unsigned("1f90", 16, 0xffff), Some(8080));
    assert_eq!(parse_unsigned("g", 16, 0xffff), None);
    for n in [0u64, 9, 10, 12345, u64::MAX] {
        assert_eq!(to_decimal(n), n.to_string());
        assert_eq!(to_hex(n), format!("{n:x}"));
        assert_eq!(parse_unsigned(&to_decimal(n), 10, u64::MAX), Some(n));
    }
    for n in [0i64, -1, i64::MIN, i64::MAX] {
        assert_eq!(to_signed_decimal(n), n.to_string());
    }
}

#[test]
fn addresses_have_their_usual_notation() {
    let ip = Ipv4Addr::new(192, 168, 1, 10);
    assert_eq!(ip.to_text(), "192.168.1.10");
    assert_eq!(ip.octets(), vec![192, 168, 1, 10]);
    assert!(Ipv4Addr::new(127, 1, 2, 3).is_loopback());
    assert!(Ipv4Addr::new(0, 0, 0, 0).is_unspecified());
    let cases = [
        (Ipv6Addr::new(0, 0, 0, 0, 0, 0, 0, 0), "::"),
        (Ipv6Addr::new(0, 0, 0, 0, 0, 0, 0, 1), "::1"),
        (Ipv6Addr::new(0x2001, 0xdb8, 0, 0, 0, 0, 0, 1), "2001:db8::1"),
        (Ipv6Addr::new(0x2001, 0, 0, 1, 0, 0, 0, 1), "2001:0:0:1::1"),
        (Ipv6Addr::new(1, 0, 2, 3, 4, 5, 6, 7), "1:0:2:3:4:5:6:7"),
        (Ipv6Addr::new(1, 0, 0, 2, 0, 0, 3, 4), "1::2:0:0:3:4"),
        (Ipv6Addr::new(0xfe80, 0, 0, 0, 0, 0, 0, 0), "fe80::"),
        (
            Ipv6Addr::new(0, 0, 0, 0, 0, 0xffff, 0xc0a8, 0x010a),
            "::ffff:192.168.1.10",
        ),
    ];
    for (ip, text) in cases {
        assert_eq!(ip.to_text(), text);
    }
    assert!(Ipv6Addr::new(0xfe80, 0, 0, 0, 0, 0, 0, 1).is_link_local());
    assert!(!Ipv6Addr::new(0xfec0, 0, 0, 0, 0, 0, 0, 1).is_link_local());
    assert!(Ipv6Addr::new(0, 0, 0, 0, 0, 0, 0, 1).is_loopback());
}

#[test]
fn names_read_back() {
    let wire = encode_name("bigfred.local.");
    assert_eq!(wire.len(), 15);
    assert_eq!(wire[0], 7);
    assert_eq!(
        read_name(&wire, 0),
        Some(("bigfred.local.".to_string(), 15))
    );
    // Names come back in lower case, but for letters beyond ASCII.
    let mixed = encode_name("BigFred-\u{c9}.LOCAL.");
    assert_eq!(mixed[1], b'B');
    assert_eq!(
        read_name(&mixed, 0),
        Some(("bigfred-\u{c9}.local.".to_string(), 18))
    );
}

#[test]
fn compressed_names_are_followed() {
    // "local" at 0, then "a" with a pointer to it at 7.
    let packet = [5, b'l', b'o', b'c', b'a', b'l', 0, 1, b'a', 0xc0, 0];
    assert_eq!(read_name(&packet, 7), Some(("a.local.".to_string(), 11)));
    // A pointer to itself ends nowhere.
    assert_eq!(read_name(&[0xc0, 0], 0), None);
    assert_eq!(read_name(&[3, b'a'], 0), None);
    // Labels are UTF-8.
    assert_eq!(read_name(&[1, 0xff, 0], 0), None);
    assert_eq!(
        read_name(&[2, 0xc3, 0xa9, 0], 0),
        Some(("\u{e9}.".to_string(), 4))
    );
}

#[test]
fn texts_are_ordered_by_their_bytes() {
    assert_eq!(compare_text("a", "b"), Rank::Less);
    assert_eq!(compare_text("a", "a"), Rank::Equal);
    assert_eq!(compare_text("b", "a"), Rank::Greater);
    assert_eq!(compare_text("a", "ab"), Rank::Less);
    assert_eq!(compare_text("Z", "a"), Rank::Less);
    let mut v = owned(&["b", "a", "b", "\u{e9}", "z"]);
    let mut w = v.clone();
    sort(&mut v);
    w.sort();
    assert_eq!(v, w);
    sort_distinct(&mut v);
    w.dedup();
    assert_eq!(v, w);
}

#[test]
fn maps_are_ordered_by_key() {
    let mut m = TextMap::new();
    m.insert("b".to_string(), 2u32);
    m.insert("a".to_string(), 1);
    m.insert("b".to_string(), 3);
    assert_eq!(m.len(), 2);
    assert_eq!(m.key_at(0), "a");
    assert_eq!(m.value_at(1), &3);
    assert_eq!(m.get("b"), Some(&3));
    assert_eq!(m.get("c"), None);
    assert!(m.contains_key("a"));
    m.remove("a");
    m.remove("x");
    assert!(!m.contains_key("a"));
    assert_eq!(m.len(), 1);
}

#[test]
fn errors_have_messages() {
    for e in [
        Error::Config("x".into()),
        Error::Ipc("x".into()),
        Error::Mdns("x".into()),
        Error::Json("x".into()),
        Error::Other("x".into()),
    ] {
        assert_eq!(e.message(), "x");
    }
}
