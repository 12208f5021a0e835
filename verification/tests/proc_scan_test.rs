use std::collections::HashSet;

use microdns::proc_scan::{
    listen_ports_for_pid, parse_net_line, parse_socket_link, socket_inodes, TCP_LISTEN,
};

const LISTEN_LINE: &str = "   0: 00000000:1F90 00000000:0000 0A 00000000:00000000 00:00000000 00000000  0        0 12345 1 0000000000000000 100 0 0 10 0";

#[test]
fn proc_scan_parse_socket_link_ok() {
    assert_eq!(parse_socket_link("socket:[12345]"), Some(12345));
    assert_eq!(parse_socket_link("pipe:[1]"), None);
}

#[test]
fn proc_scan_test_parse_socket_link_ok() {
    assert_eq!(parse_socket_link("socket:[12345]"), Some(12345));
    assert_eq!(parse_socket_link("pipe:[1]"), None);
    assert_eq!(parse_socket_link("socket:[]"), None);
    assert_eq!(parse_socket_link("socket:[12"), None);
}

#[test]
fn proc_scan_parse_tcp_listen_line() {
    let mut inodes = HashSet::new();
    inodes.insert(12345);
    // Typical /proc/net/tcp line (abbreviated columns padded).
    assert_eq!(
        parse_net_line(LISTEN_LINE, &inodes, Some(TCP_LISTEN)),
        Some(8080)
    );
    assert_eq!(parse_net_line(LISTEN_LINE, &inodes, Some("01")), None);
}

#[test]
fn proc_scan_test_parse_tcp_listen_line() {
    let mut inodes = HashSet::new();
    inodes.insert(12345);
    assert_eq!(
        parse_net_line(LISTEN_LINE, &inodes, Some(TCP_LISTEN)),
        Some(8080)
    );
    assert_eq!(parse_net_line(LISTEN_LINE, &inodes, Some("01")), None);
    assert_eq!(parse_net_line(LISTEN_LINE, &inodes, None), Some(8080));
    let other: HashSet<u64> = HashSet::new();
    assert_eq!(parse_net_line(LISTEN_LINE, &other, None), None);
    assert_eq!(parse_net_line("", &inodes, None), None);
}

#[test]
fn ports_of_a_process_come_from_four_tables() {
    let links = vec![
        "socket:[12345]".to_string(),
        "/dev/null".to_string(),
        "socket:[777]".to_string(),
    ];
    let inodes = socket_inodes(&links);
    assert_eq!(inodes.len(), 2);
    let head = "  sl  local_address rem_address   st\n";
    let tcp = format!("{head}{LISTEN_LINE}\n");
    let udp = format!(
        "{head}{}\n",
        LISTEN_LINE
            .replace("12345", "777")
            .replace(" 0A ", " 07 ")
            .replace("1F90", "5271")
    );
    let ports = listen_ports_for_pid(&links, &tcp, "", &udp, "");
    assert!(ports.has_tcp(8080));
    assert!(!ports.has_tcp(0x5271));
    assert!(ports.has_udp(0x5271));
    assert!(!ports.has_udp(8080));
}
