use microdns::bigfred_watch::Request;
use microdns::config::ServiceEntry;
use microdns::ctl::{
    build_daemon_doctor, default_socket, listed_services, print_human, read_frame, request_of,
    write_frame, CtlRequest, ListedService, RuntimeState, ServiceSource,
};
use microdns::error::Error;
use microdns::frame::{encode_frame, frame_length, MAX_FRAME};
use microdns::mdns::AnnounceLog;
use microdns::run::{BeaconWant, DesiredAds, DynAd, DynSource};
use microdns::selfcheck::Report;
use microdns::textmap::TextMap;

fn sample_ads() -> DesiredAds {
    DesiredAds {
        static_services: vec![ServiceEntry {
            name: "bigfred".into(),
            type_: "_http._tcp".into(),
            protocol: "tcp".into(),
            port: 8080,
            host: Some("bigfred".into()),
            txt: None,
        }],
        dynamic: vec![
            DynAd {
                entry: ServiceEntry {
                    name: "BigFred #2".into(),
                    type_: "_withrottle._tcp".into(),
                    protocol: "tcp".into(),
                    port: 12090,
                    host: None,
                    txt: None,
                },
                source: DynSource::DccBus,
            },
            DynAd {
                entry: ServiceEntry {
                    name: "BigFred #2".into(),
                    type_: "_z21._udp".into(),
                    protocol: "udp".into(),
                    port: 21105,
                    host: None,
                    txt: None,
                },
                source: DynSource::DccBus,
            },
        ],
        beacons: vec![BeaconWant {
            port: 21105,
            serial: 1,
        }],
        ..DesiredAds::default()
    }
}

#[test]
fn listed_services_static_and_dcc_bus_not_beacons() {
    let listed = listed_services(&sample_ads());
    assert_eq!(listed.len(), 3);
    assert_eq!(listed[0].source, ServiceSource::Static);
    assert_eq!(listed[0].name, "bigfred");
    assert_eq!(listed[1].source, ServiceSource::DccBus);
    assert_eq!(listed[1].type_, "_withrottle._tcp");
    assert_eq!(listed[2].type_, "_z21._udp");
}

#[test]
fn microinit_ads_keep_their_source() {
    let mut ads = sample_ads();
    ads.dynamic[0].source = DynSource::Microinit;
    let listed = listed_services(&ads);
    assert_eq!(listed[1].source, ServiceSource::Microinit);
    assert_eq!(listed[2].source, ServiceSource::DccBus);
}

#[test]
fn source_serializes_camel_case() {
    assert_eq!(ServiceSource::Static.as_str(), "static");
    assert_eq!(ServiceSource::DccBus.as_str(), "dccBus");
    assert_eq!(ServiceSource::Microinit.as_str(), "microinit");
}

#[test]
fn request_serializes_snake_case() {
    let l = format!("{{\"type\":\"{}\"}}", Request::DccBusList.tag());
    assert_eq!(l, r#"{"type":"dcc_bus_list"}"#);
    assert_eq!(Request::Version.tag(), "version");
}

#[test]
fn reject_oversized_length() {
    let data = (1024 * 1024 + 1_u32).to_le_bytes();
    let err = read_frame(&data).unwrap_err();
    assert!(err.message().contains("too large"));
}

#[test]
fn largest_frame_is_accepted() {
    let data = (1024 * 1024_u32).to_le_bytes();
    assert_eq!(read_frame(&data), Ok(1024 * 1024));
    assert_eq!(MAX_FRAME, 1024 * 1024);
}

#[test]
fn frames_read_back() {
    let payload = b"{\"type\":\"services_list\"}";
    let frame = write_frame(payload).unwrap();
    assert_eq!(frame.len(), 4 + payload.len());
    assert_eq!(read_frame(&frame[0..4]), Ok(payload.len()));
    assert_eq!(&frame[4..], payload);
    assert_eq!(write_frame(&[]), Ok(vec![0, 0, 0, 0]));
}

#[test]
fn too_long_a_payload_is_refused() {
    assert!(encode_frame(&[1, 2, 3], 3).is_ok());
    assert!(matches!(encode_frame(&[1, 2, 3, 4], 3), Err(Error::Ipc(_))));
    assert!(matches!(frame_length(&[4, 0, 0, 0], 3), Err(Error::Ipc(_))));
    assert_eq!(frame_length(&[1, 2, 0, 0], 1000), Ok(513));
}

#[test]
fn unknown_requests_are_invalid() {
    assert_eq!(request_of("services_list"), CtlRequest::ServicesList);
    assert_eq!(request_of("doctor"), CtlRequest::Doctor);
    assert_eq!(request_of("watch"), CtlRequest::Invalid);
    assert_eq!(request_of(""), CtlRequest::Invalid);
}

#[test]
fn control_socket_is_below_the_root() {
    assert_eq!(default_socket("/data"), "/data/run/microdns.sock");
}

#[test]
fn human_table_headers_and_sources() {
    let listed = listed_services(&sample_ads());
    let table = print_human(&listed);
    let header = table.lines().next().unwrap();
    for col in ["NAME", "TYPE", "PROTO", "PORT", "HOST", "SOURCE"] {
        assert!(header.contains(col), "missing column {col} in {header:?}");
    }
    assert!(table.contains("static"));
    assert!(table.contains("dccBus"));
    assert!(table.contains("bigfred"));
    assert!(table.contains("_withrottle._tcp"));
    let data_lines: Vec<&str> = table.lines().skip(1).collect();
    assert!(data_lines
        .iter()
        .any(|l| l.contains("8080") && l.contains("bigfred")));
    assert!(data_lines
        .iter()
        .any(|l| l.contains("12090") && l.contains('-') && l.contains("dccBus")));
}

#[test]
fn table_columns_are_as_wide_as_their_widest_cell() {
    let rows: Vec<ListedService> = listed_services(&sample_ads());
    let table = print_human(&rows);
    let lines: Vec<&str> = table.lines().collect();
    assert_eq!(
        lines[0],
        "NAME        TYPE              PROTO  PORT   HOST     SOURCE"
    );
    assert_eq!(
        lines[1],
        "bigfred     _http._tcp        tcp    8080   bigfred  static"
    );
    assert_eq!(
        lines[2],
        "BigFred #2  _withrottle._tcp  tcp    12090  -        dccBus"
    );
    assert_eq!(lines.len(), 4);
    assert!(table.ends_with('\n'));
}

#[test]
fn doctor_tells_ages_in_seconds() {
    let mut log = AnnounceLog::new();
    log.record("a._http._tcp.local.", 1_000_000_000);
    log.record("b._http._tcp.local.", 9_000_000_000);
    let mut metrics = TextMap::new();
    metrics.insert("register".to_string(), 2i64);
    let runtime = RuntimeState {
        registered: vec!["a._http._tcp.local.".into()],
        metrics,
        log,
        selfcheck: Report::default(),
    };
    let d = build_daemon_doctor(&sample_ads(), Some(runtime), 4_500_000_000);
    assert_eq!(d.services.len(), 3);
    assert_eq!(d.registered, vec!["a._http._tcp.local.".to_string()]);
    assert_eq!(d.last_announce_secs_ago.get("a._http._tcp.local."), Some(&3));
    assert_eq!(d.last_announce_secs_ago.get("b._http._tcp.local."), Some(&0));
    assert_eq!(d.metrics.get("register"), Some(&2));
    let none = build_daemon_doctor(&sample_ads(), None, 0);
    assert!(none.registered.is_empty());
    assert_eq!(none.metrics.len(), 0);
}
