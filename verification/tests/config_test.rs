use microdns::config::{
    default_bigfred_socket, default_config_path, default_microinit_socket, protocol_from_type,
    validate_iface_prefixes, validate_protocol, validate_service_type, Config, DccBusConfig,
};
use microdns::error::Error;

#[test]
fn validate_rejects_duplicate_interfaces() {
    let cfg = Config {
        interfaces: vec!["eth".into(), "ETH".into()],
        ..Config::default()
    };
    assert!(cfg.validate().is_err());
}

#[test]
fn validate_rejects_empty_interface_entry() {
    let cfg = Config {
        interfaces: vec!["  ".into()],
        ..Config::default()
    };
    assert!(cfg.validate().is_err());
}

#[test]
fn validate_rejects_bad_dns_sd_type() {
    let mut cfg = Config::default();
    cfg.services[0].type_ = "_http._sctp".into();
    assert!(cfg.validate().is_err());
    cfg.services[0].type_ = "_http._tcp".into();
    cfg.services[0].protocol = "udp".into();
    assert!(cfg.validate().is_err());
}

#[test]
fn validate_rejects_duplicate_names() {
    let mut cfg = Config::default();
    cfg.services.push(cfg.services[0].clone());
    assert!(cfg.validate().is_err());
}

#[test]
fn default_config_passes() {
    let cfg = Config::default();
    assert_eq!(cfg.validate(), Ok(()));
    assert_eq!(cfg.services.len(), 1);
    assert_eq!(cfg.services[0].name, "bigfred");
    assert!(cfg.bigfred.enabled);
    assert!(cfg.skip_interfaces.is_empty());
    assert!(cfg.interfaces.is_empty());
    assert_eq!(cfg.retry.mdns_ms, 3000);
    assert_eq!(cfg.retry.bigfred_ms, 45_000);
}

#[test]
fn clone_is_equal() {
    let cfg = Config::default();
    assert_eq!(cfg.clone(), cfg);
}

#[test]
fn validate_names_the_fault() {
    let mut cfg = Config::default();
    cfg.services[0].name = "".into();
    assert!(matches!(cfg.validate(), Err(Error::Config(_))));

    let mut cfg = Config::default();
    cfg.services[0].port = 0;
    assert_eq!(
        cfg.validate().unwrap_err().message(),
        "service 'bigfred': port must be non-zero"
    );

    let mut cfg = Config::default();
    cfg.announce.period_ms = 999;
    assert!(cfg.validate().is_err());
    cfg.announce.period_ms = 1000;
    assert!(cfg.validate().is_ok());
    cfg.announce.burst_count = 8;
    assert!(cfg.validate().is_ok());
    cfg.announce.burst_count = 9;
    assert!(cfg.validate().is_err());

    let mut cfg = Config::default();
    cfg.selfcheck.period_ms = 999;
    assert!(cfg.validate().is_err());

    let cfg = Config {
        skip_interfaces: vec!["wlan".into(), " wlan ".into()],
        ..Config::default()
    };
    assert_eq!(
        cfg.validate().unwrap_err().message(),
        "skipInterfaces: duplicate prefix 'wlan'"
    );
}

#[test]
fn faults_of_types_are_told_apart() {
    let text = |t: &str| validate_service_type("x", t).unwrap_err().message();
    assert_eq!(text(""), "service 'x': type must not be empty");
    assert_eq!(
        text("_http"),
        "service 'x': type '_http' must look like _http._tcp or _z21._udp"
    );
    assert_eq!(
        text("http._tcp"),
        "service 'x': type 'http._tcp' service label must start with '_'"
    );
    assert_eq!(
        text("_http._sctp"),
        "service 'x': type '_http._sctp' transport must be _tcp or _udp"
    );
    assert_eq!(
        validate_protocol("x", "_http._tcp", "udp").unwrap_err().message(),
        "service 'x': protocol 'udp' does not match type '_http._tcp'"
    );
    assert_eq!(
        validate_protocol("x", "_http._tcp", "sctp").unwrap_err().message(),
        "service 'x': protocol must be tcp or udp"
    );
}

#[test]
fn service_types_need_two_labels() {
    assert!(validate_service_type("x", "_http._tcp").is_ok());
    assert!(validate_service_type("x", "_http._tcp.local.").is_ok());
    assert!(validate_service_type("x", "_z21._udp").is_ok());
    assert!(validate_service_type("x", "http._tcp").is_err());
    assert!(validate_service_type("x", "_http").is_err());
    assert!(validate_service_type("x", "_http._sctp").is_err());
    assert!(validate_service_type("x", "").is_err());
}

#[test]
fn protocol_follows_type() {
    assert_eq!(protocol_from_type("_http._tcp"), Some("tcp"));
    assert_eq!(protocol_from_type("_z21._udp.local."), Some("udp"));
    assert_eq!(protocol_from_type("_z21._sctp"), None);
    assert!(validate_protocol("x", "_http._tcp", "tcp").is_ok());
    assert!(validate_protocol("x", "_http._tcp", "udp").is_err());
    assert!(validate_protocol("x", "_http._tcp", "sctp").is_err());
}

#[test]
fn prefixes_are_compared_without_case_and_space() {
    assert!(validate_iface_prefixes("interfaces", &["eth".into(), "wlan".into()]).is_ok());
    assert!(validate_iface_prefixes("interfaces", &["eth".into(), " Eth".into()]).is_err());
    assert!(validate_iface_prefixes("interfaces", &["".into()]).is_err());
}

#[test]
fn paths_follow_the_root() {
    assert_eq!(default_config_path("/data"), "/data/etc/microdns.json");
    assert!(default_bigfred_socket("/data").starts_with("/data/"));
    assert!(default_microinit_socket("/data").starts_with("/data/"));
    let mut cfg = Config::default();
    assert_eq!(cfg.bigfred.socket_path("/srv"), default_bigfred_socket("/srv"));
    cfg.bigfred.socket = Some("/run/x.sock".into());
    assert_eq!(cfg.bigfred.socket_path("/srv"), "/run/x.sock");
    cfg.microinit.socket = Some("/run/y.sock".into());
    assert_eq!(cfg.microinit.socket_path("/srv"), "/run/y.sock");
}

#[test]
fn blank_dcc_host_is_none() {
    let mut dcc = DccBusConfig::default();
    dcc.host = Some("  ".into());
    assert_eq!(dcc.advertised_host(), None);
    dcc.host = Some(" bigfred ".into());
    assert_eq!(dcc.advertised_host(), Some("bigfred".to_string()));
    dcc.host = None;
    assert_eq!(dcc.advertised_host(), None);
}
