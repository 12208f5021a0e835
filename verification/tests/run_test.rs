use microdns::bigfred_watch::{dcc_bus_list, instance_name, DccBusList, Program};
use microdns::config::ServiceEntry;
use microdns::error::Error;
use microdns::legacy_unicast::MembershipRefresh;
use microdns::run::{
    announce_burst_deadlines, announce_burst_delays, append_station_ads, apply_wake,
    bigfred_backoff_ms, commit, desired_map, fill_dynamic, plan_beacons, plan_reconcile,
    BeaconWant, DesiredAds, DynSource, FailThrottle, Level, ReconcileAction, WakeReason,
};
use microdns::textmap::TextMap;
use microdns::time::Duration;

fn program_running_wit() -> Program {
    Program {
        layout_id: 2,
        layout_name: "Klubowa".into(),
        name: "dcc-bus-2-5".into(),
        status: "running".into(),
        running: true,
        command_station_id: 5,
        withrottle_enabled: true,
        withrottle_port: 12091,
        z21_enabled: true,
        z21_port: 21106,
    }
}

fn empty_ads() -> DesiredAds {
    DesiredAds {
        static_services: Vec::new(),
        dynamic: Vec::new(),
        beacons: Vec::new(),
        ips: Vec::new(),
        ips_v6: Vec::new(),
        skip_interfaces: Vec::new(),
        interfaces: Vec::new(),
    }
}

fn entry(name: &str, port: u16) -> ServiceEntry {
    ServiceEntry {
        name: name.into(),
        type_: "_http._tcp".into(),
        protocol: "tcp".into(),
        port,
        host: None,
        txt: None,
    }
}

fn map_with(entries: &[(&str, u16)]) -> TextMap<ServiceEntry> {
    let mut m = TextMap::new();
    for (name, port) in entries {
        m.insert(name.to_string(), entry(name, *port));
    }
    m
}

#[test]
fn instance_name_format() {
    assert_eq!(instance_name(5), "BigFred #5");
}

#[test]
fn append_station_uses_api_ports_not_defaults() {
    let mut desired = empty_ads();
    append_station_ads(&mut desired, &program_running_wit(), true, None);
    assert_eq!(desired.dynamic.len(), 2);
    let wit = desired
        .dynamic
        .iter()
        .find(|d| d.entry.type_ == "_withrottle._tcp")
        .unwrap();
    assert_eq!(wit.entry.name, "BigFred #5");
    assert_eq!(wit.entry.port, 12091);
    assert_eq!(wit.source, DynSource::DccBus);
    let txt = wit.entry.txt.as_ref().unwrap();
    assert_eq!(txt.get("layoutId").map(String::as_str), Some("2"));
    assert_eq!(txt.get("layoutName").map(String::as_str), Some("Klubowa"));
    assert_eq!(txt.get("commandStationId").map(String::as_str), Some("5"));
    assert_eq!(wit.entry.host, None);
    assert_eq!(
        desired.beacons,
        vec![BeaconWant {
            port: 21106,
            serial: 258_002_005
        }]
    );
}

#[test]
fn append_station_sets_configured_host() {
    let mut desired = empty_ads();
    append_station_ads(&mut desired, &program_running_wit(), false, Some("bigfred"));
    assert!(desired
        .dynamic
        .iter()
        .all(|d| d.entry.host.as_deref() == Some("bigfred")));
}

#[test]
fn append_station_skips_stopped_and_disabled() {
    let mut desired = empty_ads();
    let mut stopped = program_running_wit();
    stopped.running = false;
    append_station_ads(&mut desired, &stopped, true, None);
    assert!(desired.dynamic.is_empty());

    let mut no_wit = program_running_wit();
    no_wit.withrottle_enabled = false;
    no_wit.z21_enabled = false;
    append_station_ads(&mut desired, &no_wit, true, None);
    assert!(desired.dynamic.is_empty());
}

#[test]
fn iface_change_forces_reannounce_not_rejoin() {
    let mut membership = MembershipRefresh::new();
    let mut force = false;
    let mut recreate = false;
    apply_wake(
        WakeReason::IfaceChange,
        &mut membership,
        &mut force,
        &mut recreate,
    );
    assert!(force);
    assert!(!recreate);
    assert_eq!(membership.epoch(), 0);
    assert!(!membership.take_rebind());
}

#[test]
fn suspend_forces_rebind_and_recreate() {
    let mut membership = MembershipRefresh::new();
    let mut force = false;
    let mut recreate = false;
    apply_wake(
        WakeReason::Suspend,
        &mut membership,
        &mut force,
        &mut recreate,
    );
    assert!(force);
    assert!(recreate);
    assert_eq!(membership.epoch(), 1);
    assert!(membership.take_rebind());
}

#[test]
fn iface_change_does_not_bump_epoch_when_recreate_pending() {
    let mut membership = MembershipRefresh::new();
    let mut force = false;
    let mut recreate = false;
    apply_wake(
        WakeReason::Suspend,
        &mut membership,
        &mut force,
        &mut recreate,
    );
    apply_wake(
        WakeReason::IfaceChange,
        &mut membership,
        &mut force,
        &mut recreate,
    );
    assert_eq!(membership.epoch(), 1);
    assert!(recreate);
    assert!(force);
    assert!(membership.take_rebind());
}

#[test]
fn other_wakes_change_nothing() {
    for reason in [
        WakeReason::Timeout,
        WakeReason::Shutdown,
        WakeReason::Microinit,
    ] {
        let mut membership = MembershipRefresh::new();
        let mut force = false;
        let mut recreate = false;
        apply_wake(reason, &mut membership, &mut force, &mut recreate);
        assert!(!force && !recreate);
        assert_eq!(membership.epoch(), 0);
    }
}

#[test]
fn dynamic_ads_are_filled_from_both_sources() {
    let mut ads = empty_ads();
    fill_dynamic(
        &mut ads,
        &[program_running_wit()],
        &[entry("web", 80)],
        true,
        None,
    );
    assert_eq!(ads.dynamic.len(), 3);
    assert_eq!(
        ads.dynamic
            .iter()
            .filter(|d| d.source == DynSource::Microinit)
            .count(),
        1
    );
    assert_eq!(ads.beacons.len(), 1);
    assert_eq!(ads.clone(), ads);
}

#[test]
fn names_of_desired_services_are_full_names() {
    let mut ads = empty_ads();
    ads.static_services.push(entry("web", 80));
    let m = desired_map(&ads);
    assert_eq!(m.len(), 1);
    assert_eq!(m.get("web._http._tcp.local.").unwrap().port, 80);
}

#[test]
fn plans_lead_to_what_is_desired() {
    let desired = map_with(&[("a", 1), ("b", 2)]);
    let registered = map_with(&[("a", 1), ("b", 9), ("c", 3)]);
    let plan = plan_reconcile(&desired, &registered, false);
    assert_eq!(
        plan,
        vec![
            ReconcileAction::Refresh("b".into()),
            ReconcileAction::Drop("c".into()),
        ]
    );
    let mut now = registered;
    for action in &plan {
        commit(&mut now, &desired, action);
    }
    assert_eq!(now, desired);
    assert!(plan_reconcile(&desired, &now, false).is_empty());
}

#[test]
fn reannouncing_refreshes_everything_and_drops_nothing() {
    let desired = map_with(&[("a", 1), ("b", 2)]);
    let registered = map_with(&[("a", 1)]);
    let plan = plan_reconcile(&desired, &registered, true);
    assert_eq!(
        plan,
        vec![
            ReconcileAction::Add("b".into()),
            ReconcileAction::Refresh("a".into()),
        ]
    );
}

#[test]
fn beacons_that_are_wanted_stay() {
    let a = BeaconWant { port: 1, serial: 1 };
    let b = BeaconWant { port: 2, serial: 2 };
    let c = BeaconWant { port: 3, serial: 3 };
    let (keep, start) = plan_beacons(&[a, b], &[b, c]);
    assert_eq!(keep, vec![false, true]);
    assert_eq!(start, vec![c]);
}

#[test]
fn backoff_doubles_up_to_the_cap() {
    assert_eq!(bigfred_backoff_ms(0, 45_000), 2000);
    assert_eq!(bigfred_backoff_ms(1, 45_000), 4000);
    assert_eq!(bigfred_backoff_ms(4, 45_000), 32_000);
    assert_eq!(bigfred_backoff_ms(0, 100), 500);
    assert_eq!(bigfred_backoff_ms(30, 45_000), 45_000);
    assert_eq!(bigfred_backoff_ms(u32::MAX, 45_000), 45_000);
}

#[test]
fn bursts_follow_a_change() {
    assert!(announce_burst_delays(0).is_empty());
    assert_eq!(announce_burst_delays(1), vec![Duration::from_secs(1)]);
    assert_eq!(
        announce_burst_delays(3),
        vec![
            Duration::from_secs(1),
            Duration::from_secs(2),
            Duration::from_secs(4),
        ]
    );
    assert_eq!(
        announce_burst_deadlines(2, 5),
        vec![1_000_000_005, 2_000_000_005]
    );
}

#[test]
fn repeated_failures_are_reported_once() {
    let mut t = FailThrottle::new();
    assert_eq!(t.ok("mdns"), None);
    let (level, text) = t.fail("mdns", "no route");
    assert_eq!(level, Level::Warn);
    assert_eq!(text, "mdns: no route");
    assert_eq!(t.fail("mdns", "no route").0, Level::Debug);
    assert_eq!(t.fail("mdns", "other").0, Level::Debug);
    assert_eq!(t.ok("mdns"), Some("mdns: recovered".to_string()));
    assert_eq!(t.ok("mdns"), None);
}

#[test]
fn replies_are_programs_or_errors() {
    let body = DccBusList {
        programs: vec![program_running_wit()],
    };
    let programs = dcc_bus_list(None, Ok(body)).unwrap();
    assert_eq!(programs.len(), 1);
    assert_eq!(programs[0].withrottle_port, 12091);
    assert!(matches!(
        dcc_bus_list(Some("busy".into()), Err("x".into())),
        Err(Error::Ipc(_))
    ));
    assert!(matches!(
        dcc_bus_list(None, Err("x".into())),
        Err(Error::Json(_))
    ));
    assert_eq!(Program::default().withrottle_port, 0);
}
