use microdns::config::ServiceEntry;
use microdns::error::Error;
use microdns::microinit_watch::{
    ads_from_snapshot, bad_port, map_service, map_snapshot, on_frame, reconnect_ms, FrameOutcome,
    MapResult, WatchFeed, WatchedService,
};
use microdns::textmap::TextMap;

fn svc(name: &str, state: &str, labels: &[(&str, &str)]) -> WatchedService {
    let mut map = TextMap::new();
    for (k, v) in labels {
        map.insert((*k).to_string(), (*v).to_string());
    }
    WatchedService {
        name: name.into(),
        state: state.into(),
        labels: map,
    }
}

fn entry(name: &str) -> ServiceEntry {
    ServiceEntry {
        name: name.into(),
        type_: "_http._tcp".into(),
        protocol: "tcp".into(),
        port: 8080,
        host: Some("bigfred".into()),
        txt: None,
    }
}

#[test]
fn running_with_port_type_and_txt() {
    let mut warned = TextMap::new();
    let ads = ads_from_snapshot(
        &[svc(
            "bigfred",
            "running",
            &[
                ("microdns-port", "8080"),
                ("microdns-type", "_http._tcp"),
                ("microdns-host", "bigfred"),
                ("microdns-txt-path", "/"),
            ],
        )],
        &mut warned,
    );
    let mut txt = TextMap::new();
    txt.insert("path".to_string(), "/".to_string());
    assert_eq!(
        ads,
        vec![ServiceEntry {
            name: "bigfred".into(),
            type_: "_http._tcp".into(),
            protocol: "tcp".into(),
            port: 8080,
            host: Some("bigfred".into()),
            txt: Some(txt),
        }]
    );
    assert_eq!(warned.len(), 0);
}

#[test]
fn missing_host_leaves_entry_host_none() {
    let mut warned = TextMap::new();
    let ads = ads_from_snapshot(
        &[svc(
            "app",
            "running",
            &[("microdns-port", "8090"), ("microdns-type", "_http._tcp")],
        )],
        &mut warned,
    );
    assert_eq!(ads.len(), 1);
    assert_eq!(ads[0].host, None);
}

#[test]
fn skips_not_running() {
    let mut warned = TextMap::new();
    let ads = ads_from_snapshot(
        &[svc(
            "bigfred",
            "stopped",
            &[("microdns-port", "8080"), ("microdns-type", "_http._tcp")],
        )],
        &mut warned,
    );
    assert!(ads.is_empty());
    assert_eq!(warned.len(), 0);
}

#[test]
fn warns_once_on_missing_type() {
    let mut warned = TextMap::new();
    let row = svc("web", "running", &[("microdns-port", "80")]);
    let ads = ads_from_snapshot(std::slice::from_ref(&row), &mut warned);
    assert!(ads.is_empty());
    assert_eq!(warned.len(), 1);
    let _ = ads_from_snapshot(&[row], &mut warned);
    assert_eq!(warned.len(), 1);
}

#[test]
fn rejects_zero_and_unparseable_port() {
    let mut warned = TextMap::new();
    let ads = ads_from_snapshot(
        &[
            svc(
                "a",
                "running",
                &[("microdns-port", "0"), ("microdns-type", "_http._tcp")],
            ),
            svc(
                "b",
                "running",
                &[("microdns-port", "x"), ("microdns-type", "_http._tcp")],
            ),
        ],
        &mut warned,
    );
    assert!(ads.is_empty());
    assert_eq!(warned.len(), 2);
}

#[test]
fn udp_type_sets_protocol() {
    let mut warned = TextMap::new();
    let ads = ads_from_snapshot(
        &[svc(
            "z21",
            "running",
            &[("microdns-port", "21105"), ("microdns-type", "_z21._udp")],
        )],
        &mut warned,
    );
    assert_eq!(ads[0].protocol, "udp");
    assert_eq!(ads[0].type_, "_z21._udp");
}

#[test]
fn drain_into_keeps_last_good_when_idle() {
    let mut feed = WatchFeed::disconnected();
    let mut last = Some(vec![entry("bigfred")]);
    assert!(!feed.drain_into(&mut last));
    assert_eq!(last.as_ref().unwrap()[0].name, "bigfred");
}

#[test]
fn the_last_snapshot_is_the_one_that_counts() {
    let mut feed = WatchFeed::new();
    let mut last = None;
    assert!(!feed.drain_into(&mut last));
    assert!(feed.publish(vec![entry("a")]).is_ok());
    assert!(feed.publish(vec![entry("b")]).is_ok());
    assert!(feed.drain_into(&mut last));
    assert_eq!(last.as_ref().unwrap()[0].name, "b");
    assert!(!feed.drain_into(&mut last));
    assert!(WatchFeed::disconnected().publish(Vec::new()).is_err());
}

#[test]
fn unlabeled_services_are_skipped() {
    assert_eq!(map_service(&svc("x", "running", &[])), MapResult::Skip);
    assert!(matches!(
        map_service(&svc("x", "running", &[("microdns-type", "_http._tcp")])),
        MapResult::Skip
    ));
}

#[test]
fn a_bad_port_is_quoted() {
    let row = svc(
        "x",
        "running",
        &[("microdns-port", "a\"b"), ("microdns-type", "_http._tcp")],
    );
    let want = bad_port("\"a\\\"b\"");
    assert_eq!(map_service(&row), MapResult::Invalid(want));
}

#[test]
fn warnings_name_the_service() {
    let mut warned = TextMap::new();
    let row = svc("web", "running", &[("microdns-port", "80")]);
    let (ads, warnings) = map_snapshot(&[row], &mut warned);
    assert!(ads.is_empty());
    assert_eq!(warnings.len(), 1);
    assert_eq!(warnings[0].0, "web");
}

#[test]
fn frames_publish_fail_or_are_ignored() {
    let mut warned = TextMap::new();
    let rows = [svc(
        "app",
        "running",
        &[("microdns-port", "8090"), ("microdns-type", "_http._tcp")],
    )];
    match on_frame("list", None, &rows, &mut warned) {
        FrameOutcome::Publish(ads, _) => assert_eq!(ads[0].name, "app"),
        other => panic!("{other:?}"),
    }
    assert!(matches!(
        on_frame("error", Some("no".into()), &[], &mut warned),
        FrameOutcome::Fail(Error::Ipc(_))
    ));
    assert!(matches!(
        on_frame("hello", None, &[], &mut warned),
        FrameOutcome::Ignore
    ));
}

#[test]
fn reconnects_are_not_too_fast() {
    assert_eq!(reconnect_ms(5000), 5000);
    assert_eq!(reconnect_ms(499), 500);
}
