//! What to advertise, how to get there, and when to try again.

use vstd::arithmetic::power2::pow2;
use vstd::prelude::*;

use crate::beacon::{serial_of, virtual_serial};
use crate::bigfred_watch::{instance_name, Program, ProgramView};
use crate::config::{non_blank, EntryView, ServiceEntry};
use crate::legacy_unicast::MembershipRefresh;
use crate::mdns::{dcc_service_entry, dcc_txt, entry_txt, full_name, txt_pairs, MdnsPublisher};
use crate::net::{Ipv4Addr, Ipv6Addr};
use crate::numeral::decimal;
use crate::order::{
    compare_pairs, compare_text, lemma_filter_has, lemma_sorts_contains, lemma_stable_sorted,
    lemma_sum_has, pairs_less, pairs_less_total,
    pairs_less_transitive, sort, sort_distinct, sorted_distinct, stable_sorted, text_less,
    text_less_total, text_less_transitive, Ordered, Rank, Ranked,
};
use crate::text::{lemma_filter_push, texts, trim, trimmed};
use crate::textmap::{
    keys_in, lemma_ordered_keys, ordered_keys, TextMap,
};
use crate::time::Duration;
use crate::value::{copy_list, lemma_views_push, list_has, opt_view, same_lists, views, Value};

verus! {

/// How loud a message is.
#[derive(Debug, Clone, Copy, PartialEq, Eq, Structural)]
pub enum Level {
    Warn,
    Info,
    Debug,
}

/// Throttle repeated failure logs: first warn, then debug; info once on recovery.
#[derive(Debug)]
pub struct FailThrottle {
    failing: bool,
    last_msg: String,
}

/// What a [`FailThrottle`] stands for.
#[verifier::ext_equal]
pub struct ThrottleView {
    pub failing: bool,
    pub last_msg: Seq<char>,
}

impl View for FailThrottle {
    type V = ThrottleView;

    closed spec fn view(&self) -> ThrottleView {
        ThrottleView { failing: self.failing, last_msg: self.last_msg@ }
    }
}

impl ThrottleView {
    /// How loud the next failure is reported.
    pub open spec fn level(self) -> Level {
        if self.failing {
            Level::Debug
        } else {
            Level::Warn
        }
    }

    /// The state after a failure.
    pub open spec fn failed(self, msg: Seq<char>) -> ThrottleView {
        ThrottleView { failing: true, last_msg: msg }
    }

    /// The state after a success.
    pub open spec fn recovered(self) -> ThrottleView {
        if self.failing {
            ThrottleView { failing: false, last_msg: Seq::empty() }
        } else {
            self
        }
    }
}

impl FailThrottle {
    /// Nothing has failed yet.
    pub fn new() -> (r: Self)
        ensures
            r@ == (ThrottleView { failing: false, last_msg: Seq::empty() }),
    {
        FailThrottle { failing: false, last_msg: String::new() }
    }

    /// Notes a failure; returns how loud to report it, and the message.
    pub fn fail(&mut self, context: &str, err: &str) -> (r: (Level, String))
        ensures
            r.1@ == context@ + ": "@ + err@,
            r.0 == old(self)@.level(),
            final(self)@ == old(self)@.failed(r.1@),
    {
        let mut msg = context.to_owned();
        msg.append(": ");
        msg.append(err);
        let level = if self.failing {
            Level::Debug
        } else {
            Level::Warn
        };
        self.last_msg = msg.copied();
        self.failing = true;
        (level, msg)
    }

    /// Notes a success; returns the message to report, where it ends a failure.
    pub fn ok(&mut self, context: &str) -> (r: Option<String>)
        ensures
            opt_view(r) == (if old(self)@.failing {
                Some(context@ + ": recovered"@)
            } else {
                None
            }),
            final(self)@ == old(self)@.recovered(),
    {
        if self.failing {
            self.failing = false;
            self.last_msg = String::new();
            let mut msg = context.to_owned();
            msg.append(": recovered");
            Some(msg)
        } else {
            None
        }
    }
}

/// Origin of a dynamic DNS-SD advertisement (not static `services[]`).
#[derive(Debug, Clone, Copy, PartialEq, Eq, Structural)]
pub enum DynSource {
    DccBus,
    Microinit,
}

/// One dynamic DNS-SD registration derived from dcc-bus or microinit labels.
#[derive(Debug, PartialEq, Eq)]
pub struct DynAd {
    pub entry: ServiceEntry,
    pub source: DynSource,
}

/// One Z21 LAN discovery beacon (port + virtual serial).
#[derive(Debug, Clone, Copy, PartialEq, Eq, Structural)]
pub struct BeaconWant {
    pub port: u16,
    pub serial: u32,
}

/// Desired advertisement set derived from config, loco-server `dcc_bus_list`,
/// and microinit watch snapshots.
///
/// `ips` (IPv4) and `ips_v6` (IPv6) are both included so DHCP / SLAAC privacy
/// address churn triggers re-registration of A/AAAA.
#[derive(Debug, PartialEq, Eq)]
pub struct DesiredAds {
    pub static_services: Vec<ServiceEntry>,
    pub dynamic: Vec<DynAd>,
    pub beacons: Vec<BeaconWant>,
    pub ips: Vec<Ipv4Addr>,
    pub ips_v6: Vec<Ipv6Addr>,
    pub skip_interfaces: Vec<String>,
    pub interfaces: Vec<String>,
}

/// What a [`DynAd`] stands for.
#[verifier::ext_equal]
pub struct DynView {
    pub entry: EntryView,
    pub source: DynSource,
}

/// What a [`DesiredAds`] stands for.
#[verifier::ext_equal]
pub struct DesiredView {
    pub static_services: Seq<EntryView>,
    pub dynamic: Seq<DynView>,
    pub beacons: Seq<BeaconWant>,
    pub ips: Seq<Ipv4Addr>,
    pub ips_v6: Seq<Ipv6Addr>,
    pub skip_interfaces: Seq<Seq<char>>,
    pub interfaces: Seq<Seq<char>>,
}

impl View for DynAd {
    type V = DynView;

    open spec fn view(&self) -> DynView {
        DynView { entry: self.entry@, source: self.source }
    }
}

impl View for BeaconWant {
    type V = BeaconWant;

    open spec fn view(&self) -> BeaconWant {
        *self
    }
}

impl View for DesiredAds {
    type V = DesiredView;

    open spec fn view(&self) -> DesiredView {
        DesiredView {
            static_services: views(self.static_services@),
            dynamic: views(self.dynamic@),
            beacons: views(self.beacons@),
            ips: views(self.ips@),
            ips_v6: views(self.ips_v6@),
            skip_interfaces: texts(self.skip_interfaces@),
            interfaces: texts(self.interfaces@),
        }
    }
}

impl Value for DynAd {
    fn same(&self, other: &Self) -> (r: bool) {
        self.entry.same(&other.entry) && self.source == other.source
    }

    fn copied(&self) -> (r: Self) {
        DynAd { entry: self.entry.copied(), source: self.source }
    }
}

impl Value for BeaconWant {
    fn same(&self, other: &Self) -> (r: bool) {
        *self == *other
    }

    fn copied(&self) -> (r: Self) {
        *self
    }
}

impl Value for DesiredAds {
    fn same(&self, other: &Self) -> (r: bool) {
        same_lists(&self.static_services, &other.static_services) && same_lists(
            &self.dynamic,
            &other.dynamic,
        ) && same_lists(&self.beacons, &other.beacons) && same_lists(&self.ips, &other.ips)
            && same_lists(&self.ips_v6, &other.ips_v6) && same_lists(
            &self.skip_interfaces,
            &other.skip_interfaces,
        ) && same_lists(&self.interfaces, &other.interfaces)
    }

    fn copied(&self) -> (r: Self) {
        DesiredAds {
            static_services: copy_list(&self.static_services),
            dynamic: copy_list(&self.dynamic),
            beacons: copy_list(&self.beacons),
            ips: copy_list(&self.ips),
            ips_v6: copy_list(&self.ips_v6),
            skip_interfaces: copy_list(&self.skip_interfaces),
            interfaces: copy_list(&self.interfaces),
        }
    }
}

impl Clone for DesiredAds {
    fn clone(&self) -> (r: Self)
        ensures
            r@ == self@,
    {
        self.copied()
    }
}

/// Nothing to advertise.
pub open spec fn no_ads() -> DesiredView {
    DesiredView {
        static_services: Seq::empty(),
        dynamic: Seq::empty(),
        beacons: Seq::empty(),
        ips: Seq::empty(),
        ips_v6: Seq::empty(),
        skip_interfaces: Seq::empty(),
        interfaces: Seq::empty(),
    }
}

impl Default for DesiredAds {
    fn default() -> (r: Self)
        ensures
            r@ == no_ads(),
    {
        let r = DesiredAds {
            static_services: Vec::new(),
            dynamic: Vec::new(),
            beacons: Vec::new(),
            ips: Vec::new(),
            ips_v6: Vec::new(),
            skip_interfaces: Vec::new(),
            interfaces: Vec::new(),
        };
        proof {
            assert(r@ =~= no_ads());
        }
        r
    }
}

/// The DNS-SD entry for one protocol of a program.
pub open spec fn station_entry(
    p: ProgramView,
    type_: Seq<char>,
    protocol: Seq<char>,
    port: u16,
    serial: Option<u32>,
    host: Option<Seq<char>>,
) -> DynView {
    DynView {
        entry: EntryView {
            name: "BigFred #"@ + decimal(p.command_station_id as nat),
            type_,
            protocol,
            port,
            host: non_blank(host),
            txt: Some(
                dcc_txt(
                    protocol,
                    p.layout_id,
                    p.command_station_id,
                    trimmed(p.layout_name),
                    serial,
                ),
            ),
        },
        source: DynSource::DccBus,
    }
}

/// The advertisements of a program: those of its protocols that are enabled
/// and have a port, as long as it runs.
pub open spec fn station_ads(p: ProgramView, host: Option<Seq<char>>) -> Seq<DynView> {
    let serial = serial_of(p.layout_id, p.command_station_id) as u32;
    let z21 = if p.running && p.z21_enabled && p.z21_port != 0 {
        seq![station_entry(p, "_z21._udp"@, "udp"@, p.z21_port, Some(serial), host)]
    } else {
        Seq::empty()
    };
    let withrottle = if p.running && p.withrottle_enabled && p.withrottle_port != 0 {
        seq![station_entry(p, "_withrottle._tcp"@, "tcp"@, p.withrottle_port, None, host)]
    } else {
        Seq::empty()
    };
    z21 + withrottle
}

/// The beacons of a program: one for a Z21 port that is advertised.
pub open spec fn station_beacons(p: ProgramView, beacon: bool) -> Seq<BeaconWant> {
    if beacon && p.running && p.z21_enabled && p.z21_port != 0 {
        seq![
            BeaconWant {
                port: p.z21_port,
                serial: serial_of(p.layout_id, p.command_station_id) as u32,
            },
        ]
    } else {
        Seq::empty()
    }
}

/// Adds what one dcc-bus program advertises.
pub fn append_station_ads(
    desired: &mut DesiredAds,
    program: &Program,
    beacon: bool,
    host: Option<&str>,
)
    ensures
        final(desired)@ == (DesiredView {
            dynamic: old(desired)@.dynamic + station_ads(
                program@,
                match host {
                    Some(h) => Some(h@),
                    None => None,
                },
            ),
            beacons: old(desired)@.beacons + station_beacons(program@, beacon),
            ..old(desired)@
        }),
{
    let ghost before = desired@;
    let ghost h = match host {
        Some(t) => Some(t@),
        None => None,
    };
    if !program.running {
        proof {
            assert(before.dynamic + station_ads(program@, h) =~= before.dynamic);
            assert(before.beacons + station_beacons(program@, beacon) =~= before.beacons);
        }
        return;
    }
    let instance = instance_name(program.command_station_id);
    let serial: u32 = virtual_serial(program.layout_id, program.command_station_id);
    let layout_name = trim(program.layout_name.as_str());
    if program.z21_enabled && program.z21_port != 0 {
        let entry = dcc_service_entry(
            instance.as_str(),
            "_z21._udp",
            "udp",
            program.z21_port,
            program.layout_id,
            program.command_station_id,
            layout_name.as_str(),
            Some(serial),
            host,
        );
        desired.dynamic.push(DynAd { entry, source: DynSource::DccBus });
        if beacon {
            desired.beacons.push(BeaconWant { port: program.z21_port, serial });
        }
    }
    if program.withrottle_enabled && program.withrottle_port != 0 {
        let entry = dcc_service_entry(
            instance.as_str(),
            "_withrottle._tcp",
            "tcp",
            program.withrottle_port,
            program.layout_id,
            program.command_station_id,
            layout_name.as_str(),
            None,
            host,
        );
        desired.dynamic.push(DynAd { entry, source: DynSource::DccBus });
    }
    proof {
        assert(desired@.dynamic =~= before.dynamic + station_ads(program@, h));
        assert(desired@.beacons =~= before.beacons + station_beacons(program@, beacon));
    }
}

/// The host of an entry for sorting.
pub open spec fn host_key(e: EntryView) -> Seq<char> {
    match e.host {
        Some(h) => h,
        None => Seq::empty(),
    }
}

/// The host of an entry for sorting.
fn host_text(e: &ServiceEntry) -> (r: String)
    ensures
        r@ == host_key(e@),
{
    match &e.host {
        Some(h) => h.copied(),
        None => String::new(),
    }
}

impl Ranked for DynAd {
    /// By name, type, port, host and TXT properties.
    open spec fn le(a: DynView, b: DynView) -> bool {
        let (x, y) = (a.entry, b.entry);
        let (s, t) = (entry_txt(x.txt), entry_txt(y.txt));
        if x.name != y.name {
            text_less(x.name, y.name)
        } else if x.type_ != y.type_ {
            text_less(x.type_, y.type_)
        } else if x.port != y.port {
            x.port < y.port
        } else if host_key(x) != host_key(y) {
            text_less(host_key(x), host_key(y))
        } else {
            s == t || pairs_less(s, t)
        }
    }

    proof fn le_total(a: DynView, b: DynView) {
        let (x, y) = (a.entry, b.entry);
        text_less_total(x.name, y.name);
        text_less_total(x.type_, y.type_);
        text_less_total(host_key(x), host_key(y));
        pairs_less_total(entry_txt(x.txt), entry_txt(y.txt));
    }

    proof fn le_transitive(a: DynView, b: DynView, c: DynView) {
        let (x, y, z) = (a.entry, b.entry, c.entry);
        text_less_total(x.name, y.name);
        text_less_total(y.name, z.name);
        if text_less(x.name, y.name) && text_less(y.name, z.name) {
            text_less_transitive(x.name, y.name, z.name);
            text_less_total(x.name, z.name);
        }
        text_less_total(x.type_, y.type_);
        text_less_total(y.type_, z.type_);
        if text_less(x.type_, y.type_) && text_less(y.type_, z.type_) {
            text_less_transitive(x.type_, y.type_, z.type_);
            text_less_total(x.type_, z.type_);
        }
        let (p, q, r) = (host_key(x), host_key(y), host_key(z));
        text_less_total(p, q);
        text_less_total(q, r);
        if text_less(p, q) && text_less(q, r) {
            text_less_transitive(p, q, r);
            text_less_total(p, r);
        }
        let (s, t, u) = (entry_txt(x.txt), entry_txt(y.txt), entry_txt(z.txt));
        if pairs_less(s, t) && pairs_less(t, u) {
            pairs_less_transitive(s, t, u);
        }
    }

    fn at_most(&self, other: &Self) -> (r: bool) {
        let (a, b) = (&self.entry, &other.entry);
        proof {
            text_less_total(a.name@, b.name@);
            text_less_total(a.type_@, b.type_@);
            text_less_total(host_key(a@), host_key(b@));
            pairs_less_total(entry_txt(a@.txt), entry_txt(b@.txt));
            pairs_less_total(entry_txt(b@.txt), entry_txt(a@.txt));
        }
        match compare_text(a.name.as_str(), b.name.as_str()) {
            Rank::Less => {
                return true;
            },
            Rank::Greater => {
                return false;
            },
            Rank::Equal => {},
        }
        match compare_text(a.type_.as_str(), b.type_.as_str()) {
            Rank::Less => {
                return true;
            },
            Rank::Greater => {
                return false;
            },
            Rank::Equal => {},
        }
        if a.port != b.port {
            return a.port < b.port;
        }
        match compare_text(host_text(a).as_str(), host_text(b).as_str()) {
            Rank::Less => {
                return true;
            },
            Rank::Greater => {
                return false;
            },
            Rank::Equal => {},
        }
        match compare_pairs(&txt_pairs(&a.txt), &txt_pairs(&b.txt)) {
            Rank::Greater => false,
            _ => true,
        }
    }
}

impl Ranked for BeaconWant {
    /// By port, then by serial.
    open spec fn le(a: BeaconWant, b: BeaconWant) -> bool {
        a.port < b.port || (a.port == b.port && a.serial <= b.serial)
    }

    proof fn le_total(a: BeaconWant, b: BeaconWant) {
    }

    proof fn le_transitive(a: BeaconWant, b: BeaconWant, c: BeaconWant) {
    }

    fn at_most(&self, other: &Self) -> (r: bool) {
        self.port < other.port || (self.port == other.port && self.serial <= other.serial)
    }
}

impl Ordered for BeaconWant {
    proof fn le_antisymmetric(a: BeaconWant, b: BeaconWant) {
    }
}

/// The advertisements of all programs, in their order.
pub open spec fn all_station_ads(programs: Seq<ProgramView>, host: Option<Seq<char>>) -> Seq<
    DynView,
>
    decreases programs.len(),
{
    if programs.len() == 0 {
        Seq::empty()
    } else {
        all_station_ads(programs.drop_last(), host) + station_ads(programs.last(), host)
    }
}

/// The beacons of all programs, in their order.
pub open spec fn all_station_beacons(programs: Seq<ProgramView>, beacon: bool) -> Seq<BeaconWant>
    decreases programs.len(),
{
    if programs.len() == 0 {
        Seq::empty()
    } else {
        all_station_beacons(programs.drop_last(), beacon) + station_beacons(
            programs.last(),
            beacon,
        )
    }
}

/// Entries that microinit has labeled, as advertisements.
pub open spec fn microinit_ads(entries: Seq<EntryView>) -> Seq<DynView> {
    entries.map_values(|e: EntryView| DynView { entry: e, source: DynSource::Microinit })
}

/// A list that may be missing, as a list.
pub open spec fn or_none<A>(v: Option<Seq<A>>) -> Seq<A> {
    match v {
        Some(s) => s,
        None => Seq::empty(),
    }
}

/// The advertisements with the dynamic part filled in and put in order.
pub open spec fn with_dynamic(
    base: DesiredView,
    programs: Seq<ProgramView>,
    microinit: Seq<EntryView>,
    beacon: bool,
    host: Option<Seq<char>>,
) -> DesiredView {
    DesiredView {
        dynamic: stable_sorted::<DynAd>(
            base.dynamic + all_station_ads(programs, host) + microinit_ads(microinit),
        ),
        beacons: sorted_distinct::<BeaconWant>(
            base.beacons + all_station_beacons(programs, beacon),
        ),
        ..base
    }
}

/// Fills in the dynamic advertisements: those of the programs, then those that
/// microinit has labeled, in order.
pub fn fill_dynamic(
    desired: &mut DesiredAds,
    programs: &[Program],
    microinit: &[ServiceEntry],
    beacon: bool,
    host: Option<&str>,
)
    ensures
        final(desired)@ == with_dynamic(
            old(desired)@,
            views(programs@),
            views(microinit@),
            beacon,
            match host {
                Some(h) => Some(h@),
                None => None,
            },
        ),
{
    let ghost base = desired@;
    let ghost h = match host {
        Some(t) => Some(t@),
        None => None,
    };
    let ghost all = views(programs@);
    let mut i: usize = 0;
    proof {
        assert(base.dynamic + all_station_ads(all.take(0), h) =~= base.dynamic);
        assert(base.beacons + all_station_beacons(all.take(0), beacon) =~= base.beacons);
    }
    while i < programs.len()
        invariant
            i <= programs@.len(),
            all == views(programs@),
            h == (match host {
                Some(t) => Some(t@),
                None => None,
            }),
            desired@ == (DesiredView {
                dynamic: base.dynamic + all_station_ads(all.take(i as int), h),
                beacons: base.beacons + all_station_beacons(all.take(i as int), beacon),
                ..base
            }),
        decreases programs@.len() - i,
    {
        append_station_ads(desired, &programs[i], beacon, host);
        proof {
            let a = all.take(i as int);
            let b = all.take(i + 1);
            assert(b.drop_last() =~= a);
            assert(b.last() == programs@[i as int]@);
            assert(base.dynamic + all_station_ads(a, h) + station_ads(b.last(), h)
                =~= base.dynamic + all_station_ads(b, h));
            assert(base.beacons + all_station_beacons(a, beacon) + station_beacons(b.last(), beacon)
                =~= base.beacons + all_station_beacons(b, beacon));
        }
        i += 1;
    }
    proof {
        assert(all.take(i as int) =~= all);
    }
    let ghost dynamic = desired@.dynamic;
    let ghost rest = views(microinit@);
    let mut k: usize = 0;
    proof {
        assert(dynamic + microinit_ads(rest.take(0)) =~= dynamic);
    }
    while k < microinit.len()
        invariant
            k <= microinit@.len(),
            rest == views(microinit@),
            desired@ == (DesiredView {
                dynamic: dynamic + microinit_ads(rest.take(k as int)),
                beacons: base.beacons + all_station_beacons(all, beacon),
                ..base
            }),
        decreases microinit@.len() - k,
    {
        let ghost before = desired.dynamic@;
        desired.dynamic.push(
            DynAd { entry: microinit[k].copied(), source: DynSource::Microinit },
        );
        proof {
            lemma_views_push(before, desired.dynamic@.last());
            assert(before.push(desired.dynamic@.last()) =~= desired.dynamic@);
            assert(dynamic + microinit_ads(rest.take(k + 1)) =~= (dynamic + microinit_ads(
                rest.take(k as int),
            )).push(DynView { entry: rest[k as int], source: DynSource::Microinit }));
        }
        k += 1;
    }
    proof {
        assert(rest.take(k as int) =~= rest);
    }
    sort(&mut desired.dynamic);
    sort_distinct(&mut desired.beacons);
}

/// The entries of an advertisement set: the static ones, then the dynamic ones.
pub open spec fn entries_of(ads: DesiredView) -> Seq<EntryView> {
    ads.static_services + ads.dynamic.map_values(|d: DynView| d.entry)
}

/// Entries by their DNS-SD names; of several with one name the last counts.
pub open spec fn by_name(entries: Seq<EntryView>) -> Map<Seq<char>, EntryView>
    decreases entries.len(),
{
    if entries.len() == 0 {
        Map::empty()
    } else {
        let e = entries.last();
        by_name(entries.drop_last()).insert(full_name(e.name, e.type_), e)
    }
}

/// The desired entries by their DNS-SD names.
pub fn desired_map(ads: &DesiredAds) -> (r: TextMap<ServiceEntry>)
    ensures
        r@ == by_name(entries_of(ads@)),
{
    let ghost all = entries_of(ads@);
    let ghost n = ads.static_services@.len();
    let mut out: TextMap<ServiceEntry> = TextMap::new();
    let mut i: usize = 0;
    proof {
        assert(out@ =~= by_name(all.take(0)));
    }
    while i < ads.static_services.len()
        invariant
            i <= n == ads.static_services@.len(),
            all == entries_of(ads@),
            out@ == by_name(all.take(i as int)),
        decreases n - i,
    {
        let e = &ads.static_services[i];
        proof {
            assert(all.take(i + 1).drop_last() =~= all.take(i as int));
            assert(all.take(i + 1).last() == e@);
        }
        let key = MdnsPublisher::fullname(e.name.as_str(), e.type_.as_str());
        out.insert(key, e.copied());
        i += 1;
    }
    let mut k: usize = 0;
    while k < ads.dynamic.len()
        invariant
            k <= ads.dynamic@.len(),
            n == ads.static_services@.len(),
            all == entries_of(ads@),
            out@ == by_name(all.take(n + k)),
        decreases ads.dynamic@.len() - k,
    {
        let e = &ads.dynamic[k].entry;
        proof {
            assert(all.take(n + k + 1).drop_last() =~= all.take(n + k));
            assert(all.take(n + k + 1).last() == e@);
        }
        let key = MdnsPublisher::fullname(e.name.as_str(), e.type_.as_str());
        out.insert(key, e.copied());
        k += 1;
    }
    proof {
        assert(all.take(n + k) =~= all);
    }
    out
}

/// Plan of register/refresh/drop actions. Refresh never includes unregister.
#[derive(Debug, PartialEq, Eq)]
pub enum ReconcileAction {
    Add(String),
    Refresh(String),
    Drop(String),
}

/// What a [`ReconcileAction`] stands for.
#[verifier::ext_equal]
pub enum ActionView {
    Add(Seq<char>),
    Refresh(Seq<char>),
    Drop(Seq<char>),
}

impl View for ReconcileAction {
    type V = ActionView;

    open spec fn view(&self) -> ActionView {
        match self {
            ReconcileAction::Add(k) => ActionView::Add(k@),
            ReconcileAction::Refresh(k) => ActionView::Refresh(k@),
            ReconcileAction::Drop(k) => ActionView::Drop(k@),
        }
    }
}

impl ActionView {
    /// The name that the action is about.
    pub open spec fn key(self) -> Seq<char> {
        match self {
            ActionView::Add(k) => k,
            ActionView::Refresh(k) => k,
            ActionView::Drop(k) => k,
        }
    }

    /// The place of the action's kind in a plan.
    pub open spec fn rank(self) -> int {
        match self {
            ActionView::Add(_) => 0,
            ActionView::Refresh(_) => 1,
            ActionView::Drop(_) => 2,
        }
    }
}

/// Services by their DNS-SD names.
pub type Services = Map<Seq<char>, EntryView>;

/// The test for a name that is desired and not registered.
pub open spec fn is_new(registered: Services) -> spec_fn(Seq<char>) -> bool {
    |k: Seq<char>| !registered.contains_key(k)
}

/// The test for a name that is registered and to be registered again: its
/// entry differs, or everything is to be refreshed.
pub open spec fn is_changed(desired: Services, registered: Services, all: bool) -> spec_fn(
    Seq<char>,
) -> bool {
    |k: Seq<char>| registered.contains_key(k) && (all || registered[k] != desired[k])
}

/// The names to add, in order.
pub open spec fn to_add(desired: Services, registered: Services) -> Seq<Seq<char>> {
    ordered_keys(desired).filter(is_new(registered))
}

/// The names to refresh, in order.
pub open spec fn to_refresh(desired: Services, registered: Services, all: bool) -> Seq<Seq<char>> {
    ordered_keys(desired).filter(is_changed(desired, registered, all))
}

/// The names to drop, in order.
pub open spec fn to_drop(desired: Services, registered: Services) -> Seq<Seq<char>> {
    ordered_keys(registered).filter(is_new(desired))
}

/// The plan: first what is new, then what has changed, then what is to go.
pub open spec fn plan(desired: Services, registered: Services, all: bool) -> Seq<ActionView> {
    to_add(desired, registered).map_values(|k: Seq<char>| ActionView::Add(k)) + to_refresh(
        desired,
        registered,
        all,
    ).map_values(|k: Seq<char>| ActionView::Refresh(k)) + to_drop(desired, registered).map_values(
        |k: Seq<char>| ActionView::Drop(k),
    )
}

/// The keys of a map in order.
fn key_list<T: View>(m: &TextMap<T>) -> (r: Vec<String>)
    ensures
        texts(r@) == ordered_keys(m@),
        forall|i: int| 0 <= i < r@.len() ==> m@.contains_key((#[trigger] r@[i])@),
{
    let n: usize = m.len();
    let ghost listing = m.listing();
    let mut out: Vec<String> = Vec::new();
    let mut i: usize = 0;
    while i < n
        invariant
            n == listing.len(),
            listing == m.listing(),
            i == out@.len() <= n,
            forall|k: int| 0 <= k < i ==> (#[trigger] texts(out@)[k]) == listing[k].0,
            forall|k: int| 0 <= k < i ==> m@.contains_key((#[trigger] out@[k])@),
        decreases n - i,
    {
        let ghost before = out@;
        out.push(m.key_at(i).copied());
        proof {
            assert(texts(out@) =~= texts(before).push(listing[i as int].0));
        }
        i += 1;
    }
    proof {
        assert(texts(out@) =~= keys_in(listing));
    }
    out
}

/// Compute reconcile actions. Refresh is register-only (no goodbye).
pub fn plan_reconcile(
    desired: &TextMap<ServiceEntry>,
    registered: &TextMap<ServiceEntry>,
    content_or_addr_changed: bool,
) -> (r: Vec<ReconcileAction>)
    ensures
        views(r@) == plan(desired@, registered@, content_or_addr_changed),
{
    let all = content_or_addr_changed;
    let wanted = key_list(desired);
    let held = key_list(registered);
    let ghost d = ordered_keys(desired@);
    let ghost h = ordered_keys(registered@);
    let ghost new = is_new(registered@);
    let ghost changed = is_changed(desired@, registered@, all);
    let ghost gone = is_new(desired@);
    let ghost f_add = |k: Seq<char>| ActionView::Add(k);
    let ghost f_refresh = |k: Seq<char>| ActionView::Refresh(k);
    let ghost f_drop = |k: Seq<char>| ActionView::Drop(k);
    let mut adds: Vec<ReconcileAction> = Vec::new();
    let mut refreshes: Vec<ReconcileAction> = Vec::new();
    let mut drops: Vec<ReconcileAction> = Vec::new();
    let mut i: usize = 0;
    proof {
        reveal(Seq::filter);
        assert(views(adds@) =~= d.take(0).filter(new).map_values(f_add));
        assert(views(refreshes@) =~= d.take(0).filter(changed).map_values(f_refresh));
        assert(views(drops@) =~= h.take(0).filter(gone).map_values(f_drop));
    }
    while i < wanted.len()
        invariant
            i <= wanted@.len(),
            d == texts(wanted@),
            forall|k: int| 0 <= k < wanted@.len() ==> desired@.contains_key((#[trigger] wanted@[k])@),
            new == is_new(registered@),
            changed == is_changed(desired@, registered@, all),
            f_add == (|k: Seq<char>| ActionView::Add(k)),
            f_refresh == (|k: Seq<char>| ActionView::Refresh(k)),
            views(adds@) == d.take(i as int).filter(new).map_values(f_add),
            views(refreshes@) == d.take(i as int).filter(changed).map_values(f_refresh),
        decreases wanted@.len() - i,
    {
        let key = &wanted[i];
        let ghost x = d[i as int];
        proof {
            assert(x == key@);
            assert(d.take(i + 1) =~= d.take(i as int).push(x));
            lemma_filter_push(d.take(i as int), x, new);
            lemma_filter_push(d.take(i as int), x, changed);
            lemma_map_push(d.take(i as int).filter(new), x, f_add);
            lemma_map_push(d.take(i as int).filter(changed), x, f_refresh);
        }
        match (desired.get(key.as_str()), registered.get(key.as_str())) {
            (_, None) => {
                let ghost before = adds@;
                adds.push(ReconcileAction::Add(key.copied()));
                proof {
                    lemma_views_push(before, adds@.last());
                    assert(before.push(adds@.last()) =~= adds@);
                }
            },
            (Some(entry), Some(old_entry)) => {
                if all || !old_entry.same(entry) {
                    let ghost before = refreshes@;
                    refreshes.push(ReconcileAction::Refresh(key.copied()));
                    proof {
                        lemma_views_push(before, refreshes@.last());
                        assert(before.push(refreshes@.last()) =~= refreshes@);
                    }
                }
            },
            (None, Some(_)) => {},
        }
        i += 1;
    }
    let mut k: usize = 0;
    while k < held.len()
        invariant
            k <= held@.len(),
            h == texts(held@),
            gone == is_new(desired@),
            f_drop == (|k: Seq<char>| ActionView::Drop(k)),
            views(drops@) == h.take(k as int).filter(gone).map_values(f_drop),
        decreases held@.len() - k,
    {
        let key = &held[k];
        let ghost x = h[k as int];
        proof {
            assert(x == key@);
            assert(h.take(k + 1) =~= h.take(k as int).push(x));
            lemma_filter_push(h.take(k as int), x, gone);
            lemma_map_push(h.take(k as int).filter(gone), x, f_drop);
        }
        if !desired.contains_key(key.as_str()) {
            let ghost before = drops@;
            drops.push(ReconcileAction::Drop(key.copied()));
            proof {
                lemma_views_push(before, drops@.last());
                assert(before.push(drops@.last()) =~= drops@);
            }
        }
        k += 1;
    }
    proof {
        assert(d.take(i as int) =~= d);
        assert(h.take(k as int) =~= h);
    }
    let ghost a = adds@;
    let ghost b = refreshes@;
    let ghost c = drops@;
    adds.append(&mut refreshes);
    adds.append(&mut drops);
    proof {
        assert(views(adds@) =~= views(a) + views(b) + views(c));
    }
    adds
}

/// Mapping a list with one more element behind.
proof fn lemma_map_push<A, B>(s: Seq<A>, x: A, f: spec_fn(A) -> B)
    ensures
        s.push(x).map_values(f) == s.map_values(f).push(f(x)),
{
    assert(s.push(x).map_values(f) =~= s.map_values(f).push(f(x)));
}

/// What is registered after an action was carried out.
pub open spec fn applied(registered: Services, desired: Services, action: ActionView) -> Services {
    match action {
        ActionView::Drop(k) => registered.remove(k),
        _ => if desired.contains_key(action.key()) {
            registered.insert(action.key(), desired[action.key()])
        } else {
            registered
        },
    }
}

/// What is registered after actions were carried out, one after the other.
pub open spec fn applied_all(
    registered: Services,
    desired: Services,
    actions: Seq<ActionView>,
) -> Services
    decreases actions.len(),
{
    if actions.len() == 0 {
        registered
    } else {
        applied(applied_all(registered, desired, actions.drop_last()), desired, actions.last())
    }
}

/// Carrying out actions begins with the first.
pub proof fn lemma_applied_first(registered: Services, desired: Services, actions: Seq<ActionView>)
    requires
        actions.len() > 0,
    ensures
        applied_all(registered, desired, actions) == applied_all(
            applied(registered, desired, actions[0]),
            desired,
            actions.skip(1),
        ),
    decreases actions.len(),
{
    let rest = actions.skip(1);
    if actions.len() == 1 {
        assert(actions.drop_last() =~= Seq::empty());
        assert(rest =~= Seq::empty());
        assert(applied_all(registered, desired, actions.drop_last()) == registered);
    } else {
        lemma_applied_first(registered, desired, actions.drop_last());
        assert(actions.drop_last().skip(1) =~= rest.drop_last());
        assert(rest.last() == actions.last());
    }
}

/// There are finitely many entries.
pub proof fn lemma_by_name_finite(entries: Seq<EntryView>)
    ensures
        by_name(entries).dom().finite(),
    decreases entries.len(),
{
    if entries.len() > 0 {
        lemma_by_name_finite(entries.drop_last());
    }
}

/// Takes in that an action was carried out.
pub fn commit(
    registered: &mut TextMap<ServiceEntry>,
    desired: &TextMap<ServiceEntry>,
    action: &ReconcileAction,
)
    ensures
        final(registered)@ == applied(old(registered)@, desired@, action@),
{
    match action {
        ReconcileAction::Add(key) | ReconcileAction::Refresh(key) => {
            match desired.get(key.as_str()) {
                Some(entry) => {
                    registered.insert(key.copied(), entry.copied());
                },
                None => {},
            }
        },
        ReconcileAction::Drop(key) => {
            registered.remove(key.as_str());
        },
    }
}

/// Whether actions register a name.
spec fn puts(actions: Seq<ActionView>, k: Seq<char>) -> bool {
    exists|i: int| 0 <= i < actions.len() && !((#[trigger] actions[i]) is Drop) && actions[i].key() == k
}

/// Whether actions drop a name.
spec fn drops(actions: Seq<ActionView>, k: Seq<char>) -> bool {
    exists|i: int| 0 <= i < actions.len() && (#[trigger] actions[i]) is Drop && actions[i].key() == k
}

/// What one more action registers and drops.
proof fn lemma_last_action(actions: Seq<ActionView>, k: Seq<char>)
    requires
        actions.len() > 0,
    ensures
        puts(actions, k) <==> puts(actions.drop_last(), k) || (!(actions.last() is Drop)
            && actions.last().key() == k),
        drops(actions, k) <==> drops(actions.drop_last(), k) || (actions.last() is Drop
            && actions.last().key() == k),
{
    let d = actions.drop_last();
    let n = actions.len() - 1;
    assert(actions[n] == actions.last());
    if puts(d, k) {
        let i = choose|i: int| 0 <= i < d.len() && !((#[trigger] d[i]) is Drop) && d[i].key() == k;
        assert(actions[i] == d[i]);
    }
    if drops(d, k) {
        let i = choose|i: int| 0 <= i < d.len() && (#[trigger] d[i]) is Drop && d[i].key() == k;
        assert(actions[i] == d[i]);
    }
    if puts(actions, k) {
        let i = choose|i: int|
            0 <= i < actions.len() && !((#[trigger] actions[i]) is Drop) && actions[i].key() == k;
        if i < n {
            assert(actions[i] == d[i]);
        }
    }
    if drops(actions, k) {
        let i = choose|i: int|
            0 <= i < actions.len() && (#[trigger] actions[i]) is Drop && actions[i].key() == k;
        if i < n {
            assert(actions[i] == d[i]);
        }
    }
}

/// What is registered under one name after actions that name nothing twice.
proof fn lemma_applied_key(
    registered: Services,
    desired: Services,
    actions: Seq<ActionView>,
    k: Seq<char>,
)
    requires
        forall|i: int|
            0 <= i < actions.len() ==> ((#[trigger] actions[i]) is Drop || desired.contains_key(
                actions[i].key(),
            )),
        forall|i: int, j: int|
            0 <= i < j < actions.len() ==> (#[trigger] actions[i]).key() != (
            #[trigger] actions[j]).key(),
    ensures
        ({
            let r = applied_all(registered, desired, actions);
            &&& r.contains_key(k) <==> puts(actions, k) || (registered.contains_key(k) && !drops(
                actions,
                k,
            ))
            &&& puts(actions, k) ==> r[k] == desired[k]
            &&& r.contains_key(k) && !puts(actions, k) ==> r[k] == registered[k]
        }),
    decreases actions.len(),
{
    if actions.len() > 0 {
        let d = actions.drop_last();
        let l = actions.last();
        let n = actions.len() - 1;
        assert(actions[n] == l);
        assert forall|i: int| 0 <= i < d.len() implies ((#[trigger] d[i]) is Drop
            || desired.contains_key(d[i].key())) by {
            assert(d[i] == actions[i]);
        }
        assert forall|i: int, j: int| 0 <= i < j < d.len() implies (#[trigger] d[i]).key() != (
        #[trigger] d[j]).key() by {
            assert(d[i] == actions[i] && d[j] == actions[j]);
        }
        lemma_applied_key(registered, desired, d, k);
        lemma_last_action(actions, k);
        if l.key() == k {
            if puts(d, k) {
                let i = choose|i: int|
                    0 <= i < d.len() && !((#[trigger] d[i]) is Drop) && d[i].key() == k;
                assert(actions[i] == d[i]);
            }
            if drops(d, k) {
                let i = choose|i: int|
                    0 <= i < d.len() && (#[trigger] d[i]) is Drop && d[i].key() == k;
                assert(actions[i] == d[i]);
            }
        }
    }
}

/// A filtered list of different values has different values.
proof fn lemma_filter_distinct<A>(s: Seq<A>, keep: spec_fn(A) -> bool)
    requires
        forall|i: int, j: int| 0 <= i < j < s.len() ==> #[trigger] s[i] != #[trigger] s[j],
    ensures
        forall|i: int, j: int|
            0 <= i < j < s.filter(keep).len() ==> #[trigger] s.filter(keep)[i]
                != #[trigger] s.filter(keep)[j],
    decreases s.len(),
{
    reveal(Seq::filter);
    if s.len() > 0 {
        let d = s.drop_last();
        assert forall|i: int, j: int| 0 <= i < j < d.len() implies #[trigger] d[i]
            != #[trigger] d[j] by {
            assert(d[i] == s[i] && d[j] == s[j]);
        }
        lemma_filter_distinct(d, keep);
        let f = d.filter(keep);
        assert forall|i: int| 0 <= i < f.len() implies #[trigger] f[i] != s.last() by {
            lemma_filter_has(d, keep, f[i]);
            assert(f.contains(f[i]));
            let k = choose|k: int| 0 <= k < d.len() && d[k] == f[i];
            assert(s[k] != s[s.len() - 1]);
        }
    }
}

/// The actions of a plan: each name occurs once, what is to be added or
/// refreshed is desired, and what is to be dropped is not.
proof fn lemma_plan(desired: Services, registered: Services, all: bool)
    requires
        desired.dom().finite(),
        registered.dom().finite(),
    ensures
        forall|i: int, j: int|
            0 <= i < j < plan(desired, registered, all).len() ==> (#[trigger] plan(
                desired,
                registered,
                all,
            )[i]).key() != (#[trigger] plan(desired, registered, all)[j]).key(),
        forall|i: int, j: int|
            0 <= i < j < plan(desired, registered, all).len() ==> (#[trigger] plan(
                desired,
                registered,
                all,
            )[i]).rank() <= (#[trigger] plan(desired, registered, all)[j]).rank(),
        forall|a: ActionView| #[trigger]
            plan(desired, registered, all).contains(a) <==> match a {
                ActionView::Add(k) => desired.contains_key(k) && !registered.contains_key(k),
                ActionView::Refresh(k) => desired.contains_key(k) && registered.contains_key(k) && (
                all || registered[k] != desired[k]),
                ActionView::Drop(k) => registered.contains_key(k) && !desired.contains_key(k),
            },
{
    let x = to_add(desired, registered);
    let y = to_refresh(desired, registered, all);
    let z = to_drop(desired, registered);
    let p = plan(desired, registered, all);
    lemma_ordered_keys(desired);
    lemma_ordered_keys(registered);
    let dk = ordered_keys(desired);
    let rk = ordered_keys(registered);
    assert forall|i: int, j: int| 0 <= i < j < dk.len() implies #[trigger] dk[i]
        != #[trigger] dk[j] by {
        text_less_total(dk[i], dk[i]);
    }
    assert forall|i: int, j: int| 0 <= i < j < rk.len() implies #[trigger] rk[i]
        != #[trigger] rk[j] by {
        text_less_total(rk[i], rk[i]);
    }
    lemma_filter_distinct(dk, is_new(registered));
    lemma_filter_distinct(dk, is_changed(desired, registered, all));
    lemma_filter_distinct(rk, is_new(desired));
    assert forall|k: Seq<char>| #[trigger]
        x.contains(k) <==> desired.contains_key(k) && !registered.contains_key(k) by {
        lemma_filter_has(dk, is_new(registered), k);
        assert(dk.contains(k) <==> desired.contains_key(k));
    }
    assert forall|k: Seq<char>| #[trigger]
        y.contains(k) <==> desired.contains_key(k) && registered.contains_key(k) && (all
            || registered[k] != desired[k]) by {
        lemma_filter_has(dk, is_changed(desired, registered, all), k);
        assert(dk.contains(k) <==> desired.contains_key(k));
    }
    assert forall|k: Seq<char>| #[trigger]
        z.contains(k) <==> registered.contains_key(k) && !desired.contains_key(k) by {
        lemma_filter_has(rk, is_new(desired), k);
        assert(rk.contains(k) <==> registered.contains_key(k));
    }
    let (a, b) = (x.len() as int, (x.len() + y.len()) as int);
    assert forall|i: int| 0 <= i < p.len() implies (#[trigger] p[i]) == (if i < a {
        ActionView::Add(x[i])
    } else if i < b {
        ActionView::Refresh(y[i - a])
    } else {
        ActionView::Drop(z[i - b])
    }) by {}
    assert forall|i: int, j: int| 0 <= i < j < p.len() implies (#[trigger] p[i]).key() != (
    #[trigger] p[j]).key() by {
        if i < a {
            assert(x.contains(x[i]));
        } else if i < b {
            assert(y.contains(y[i - a]));
        }
        if j < a {
            assert(x[i] != x[j]);
        } else if j < b {
            assert(y.contains(y[j - a]));
            if i >= a {
                assert(y[i - a] != y[j - a]);
            }
        } else {
            assert(z.contains(z[j - b]));
            if i >= b {
                assert(z[i - b] != z[j - b]);
            }
        }
    }
    assert forall|c: ActionView| #[trigger] p.contains(c) <==> match c {
        ActionView::Add(k) => desired.contains_key(k) && !registered.contains_key(k),
        ActionView::Refresh(k) => desired.contains_key(k) && registered.contains_key(k) && (all
            || registered[k] != desired[k]),
        ActionView::Drop(k) => registered.contains_key(k) && !desired.contains_key(k),
    } by {
        if p.contains(c) {
            let i = choose|i: int| 0 <= i < p.len() && p[i] == c;
            if i < a {
                assert(x.contains(x[i]));
            } else if i < b {
                assert(y.contains(y[i - a]));
            } else {
                assert(z.contains(z[i - b]));
            }
        }
        match c {
            ActionView::Add(k) => {
                if x.contains(k) {
                    let i = choose|i: int| 0 <= i < x.len() && x[i] == k;
                    assert(p[i] == c);
                }
            },
            ActionView::Refresh(k) => {
                if y.contains(k) {
                    let i = choose|i: int| 0 <= i < y.len() && y[i] == k;
                    assert(p[a + i] == c);
                }
            },
            ActionView::Drop(k) => {
                if z.contains(k) {
                    let i = choose|i: int| 0 <= i < z.len() && z[i] == k;
                    assert(p[b + i] == c);
                }
            },
        }
    }
}

/// A plan adds before it refreshes and refreshes before it drops, and it never
/// touches a name twice: no refresh goes with a goodbye.
pub proof fn plan_is_orderly(desired: Services, registered: Services, all: bool, i: int, j: int)
    requires
        desired.dom().finite(),
        registered.dom().finite(),
        0 <= i < j < plan(desired, registered, all).len(),
    ensures
        plan(desired, registered, all)[i].rank() <= plan(desired, registered, all)[j].rank(),
        plan(desired, registered, all)[i].key() != plan(desired, registered, all)[j].key(),
{
    lemma_plan(desired, registered, all);
}

/// Carrying out a plan leaves registered exactly what is desired.
pub proof fn plan_reaches_desired(desired: Services, registered: Services, all: bool)
    requires
        desired.dom().finite(),
        registered.dom().finite(),
    ensures
        applied_all(registered, desired, plan(desired, registered, all)) == desired,
{
    let p = plan(desired, registered, all);
    lemma_plan(desired, registered, all);
    assert forall|i: int| 0 <= i < p.len() implies ((#[trigger] p[i]) is Drop
        || desired.contains_key(p[i].key())) by {
        assert(p.contains(p[i]));
    }
    let r = applied_all(registered, desired, p);
    assert forall|k: Seq<char>| #[trigger]
        r.contains_key(k) == desired.contains_key(k) && (r.contains_key(k) ==> r[k]
            == desired[k]) by {
        lemma_applied_key(registered, desired, p, k);
        if puts(p, k) {
            let i = choose|i: int|
                0 <= i < p.len() && !((#[trigger] p[i]) is Drop) && p[i].key() == k;
            assert(p.contains(p[i]));
        }
        if drops(p, k) {
            let i = choose|i: int| 0 <= i < p.len() && (#[trigger] p[i]) is Drop && p[i].key() == k;
            assert(p.contains(p[i]));
        }
        if p.contains(ActionView::Add(k)) {
            let i = choose|i: int| 0 <= i < p.len() && p[i] == ActionView::Add(k);
            assert(!(p[i] is Drop) && p[i].key() == k);
        }
        if p.contains(ActionView::Refresh(k)) {
            let i = choose|i: int| 0 <= i < p.len() && p[i] == ActionView::Refresh(k);
            assert(!(p[i] is Drop) && p[i].key() == k);
        }
        if p.contains(ActionView::Drop(k)) {
            let i = choose|i: int| 0 <= i < p.len() && p[i] == ActionView::Drop(k);
            assert(p[i] is Drop && p[i].key() == k);
        }
    }
    assert(r =~= desired);
}

/// Announcing again what is registered says no goodbye: a plan for what is
/// registered already holds refreshes only.
pub proof fn reannouncing_drops_nothing(desired: Services, all: bool, i: int)
    requires
        desired.dom().finite(),
        0 <= i < plan(desired, desired, all).len(),
    ensures
        plan(desired, desired, all)[i] is Refresh,
{
    let p = plan(desired, desired, all);
    lemma_plan(desired, desired, all);
    assert(p.contains(p[i]));
}

/// There is nothing to do exactly if what is registered is what is desired and
/// nothing asks for a refresh.
pub proof fn no_plan_when_settled(desired: Services, registered: Services)
    requires
        desired.dom().finite(),
        registered.dom().finite(),
    ensures
        plan(desired, registered, false).len() == 0 <==> desired == registered,
{
    let p = plan(desired, registered, false);
    lemma_plan(desired, registered, false);
    if p.len() == 0 {
        plan_reaches_desired(desired, registered, false);
    } else {
        assert(p.contains(p[0]));
    }
}

/// The test for a beacon that does not run yet.
pub open spec fn not_among(active: Seq<BeaconWant>) -> spec_fn(BeaconWant) -> bool {
    |w: BeaconWant| !active.contains(w)
}

/// Which of the running beacons stay, one flag each, and which are to be
/// started, in the order in which they are wanted.
pub fn plan_beacons(active: &[BeaconWant], want: &[BeaconWant]) -> (r: (
    Vec<bool>,
    Vec<BeaconWant>,
))
    ensures
        r.0@ == active@.map_values(|b: BeaconWant| want@.contains(b)),
        r.1@ == want@.filter(not_among(active@)),
{
    let ghost stays = |b: BeaconWant| want@.contains(b);
    let ghost keep = not_among(active@);
    let mut flags: Vec<bool> = Vec::new();
    let mut start: Vec<BeaconWant> = Vec::new();
    let mut i: usize = 0;
    proof {
        assert forall|s: Seq<BeaconWant>| #[trigger] views(s) == s by {
            assert(views(s) =~= s);
        }
        reveal(Seq::filter);
        assert(start@ =~= want@.take(0).filter(keep));
    }
    while i < active.len()
        invariant
            i == flags@.len() <= active@.len(),
            stays == (|b: BeaconWant| want@.contains(b)),
            forall|s: Seq<BeaconWant>| #[trigger] views(s) == s,
            forall|k: int| 0 <= k < i ==> #[trigger] flags@[k] == stays(active@[k]),
        decreases active@.len() - i,
    {
        flags.push(list_has(want, &active[i]));
        i += 1;
    }
    let mut k: usize = 0;
    while k < want.len()
        invariant
            k <= want@.len(),
            keep == not_among(active@),
            forall|s: Seq<BeaconWant>| #[trigger] views(s) == s,
            start@ == want@.take(k as int).filter(keep),
        decreases want@.len() - k,
    {
        proof {
            assert(want@.take(k + 1) =~= want@.take(k as int).push(want@[k as int]));
            lemma_filter_push(want@.take(k as int), want@[k as int], keep);
        }
        if !list_has(active, &want[k]) {
            start.push(want[k]);
        }
        k += 1;
    }
    proof {
        assert(flags@ =~= active@.map_values(stays));
        assert(want@.take(k as int) =~= want@);
    }
    (flags, start)
}

/// Exponential backoff for a missing BigFred socket: 2 s, 4 s, 8 s, … up to
/// the cap, and never under half a second.
pub open spec fn backoff(failures: nat, cap: u64) -> int {
    let limit = if cap < 500 {
        500
    } else {
        cap as int
    };
    let shift = if failures < 15 {
        failures
    } else {
        15
    };
    let wait = 2000 * pow2(shift) as int;
    if wait < limit {
        wait
    } else {
        limit
    }
}

/// Exponential backoff for a missing BigFred socket: 2 s, 4 s, 8 s, … cap.
pub fn bigfred_backoff_ms(failures: u32, cap: u64) -> (r: u64)
    ensures
        r == backoff(failures as nat, cap),
{
    let limit: u64 = if cap < 500 {
        500
    } else {
        cap
    };
    let shift: u32 = if failures < 15 {
        failures
    } else {
        15
    };
    let mut wait: u64 = 2000;
    let mut i: u32 = 0;
    proof {
        vstd::arithmetic::power2::lemma2_to64();
    }
    while i < shift
        invariant
            i <= shift <= 15,
            wait == 2000 * pow2(i as nat),
            pow2(i as nat) <= 0x8000,
            pow2(15) == 0x8000,
        decreases shift - i,
    {
        proof {
            vstd::arithmetic::power2::lemma_pow2_unfold((i + 1) as nat);
            if i + 1 < 15 {
                vstd::arithmetic::power2::lemma_pow2_strictly_increases((i + 1) as nat, 15);
            }
        }
        wait = wait * 2;
        i += 1;
    }
    if wait < limit {
        wait
    } else {
        limit
    }
}

/// The backoff grows with the failures and stays between half a second and the
/// cap.
pub proof fn backoff_grows_to_cap(failures: nat, cap: u64)
    ensures
        500 <= backoff(failures, cap),
        backoff(failures, cap) <= (if cap < 500 {
            500
        } else {
            cap as int
        }),
        backoff(failures, cap) <= backoff(failures + 1, cap),
{
    let shift = if failures < 15 {
        failures
    } else {
        15
    };
    vstd::arithmetic::power2::lemma_pow2_pos(shift);
    if failures < 15 {
        vstd::arithmetic::power2::lemma_pow2_strictly_increases(failures, failures + 1);
    }
}

/// The delays of a burst: 1 s, 2 s, 4 s, …, doubling at most 31 times.
pub open spec fn burst_delays(burst_count: u8) -> Seq<Duration> {
    Seq::new(
        burst_count as nat,
        |i: int|
            Duration {
                nanos: (pow2(
                    (if i < 31 {
                        i
                    } else {
                        31
                    }) as nat,
                ) * 1_000_000_000) as u128,
            },
    )
}

/// Burst delays as durations.
pub fn announce_burst_delays(burst_count: u8) -> (r: Vec<Duration>)
    ensures
        r@ == burst_delays(burst_count),
{
    let mut out: Vec<Duration> = Vec::new();
    let mut secs: u64 = 1;
    let mut i: u8 = 0;
    proof {
        vstd::arithmetic::power2::lemma2_to64();
    }
    while i < burst_count
        invariant
            i == out@.len() <= burst_count,
            secs == pow2(
                (if i < 31 {
                    i as int
                } else {
                    31
                }) as nat,
            ),
            secs <= 0x8000_0000,
            pow2(31) == 0x8000_0000,
            forall|k: int|
                0 <= k < out@.len() ==> #[trigger] out@[k] == burst_delays(burst_count)[k],
        decreases burst_count - i,
    {
        out.push(Duration::from_secs(secs));
        if i < 31 {
            proof {
                vstd::arithmetic::power2::lemma_pow2_unfold((i + 1) as nat);
                if i + 1 < 31 {
                    vstd::arithmetic::power2::lemma_pow2_strictly_increases((i + 1) as nat, 31);
                }
            }
            secs = secs * 2;
        }
        i += 1;
    }
    proof {
        assert(out@ =~= burst_delays(burst_count));
    }
    out
}

/// The deadlines of a burst that starts now.
pub open spec fn burst_deadlines(burst_count: u8, now: u64) -> Seq<u128> {
    burst_delays(burst_count).map_values(|d: Duration| (now + d.nanos) as u128)
}

/// Unsolicited re-announce deadlines after a real advertisement change.
/// `burst_count` 4 → now+1s, +2s, +4s, +8s.
pub fn announce_burst_deadlines(burst_count: u8, now: u64) -> (r: Vec<u128>)
    ensures
        r@ == burst_deadlines(burst_count, now),
{
    let delays = announce_burst_delays(burst_count);
    let mut out: Vec<u128> = Vec::new();
    let mut i: usize = 0;
    while i < delays.len()
        invariant
            i == out@.len() <= delays@.len(),
            delays@ == burst_delays(burst_count),
            forall|k: int| 0 <= k < i ==> #[trigger] out@[k] == burst_deadlines(burst_count, now)[k],
        decreases delays@.len() - i,
    {
        proof {
            lemma_burst_bound(burst_count, i as int);
        }
        out.push(now as u128 + delays[i].nanos);
        i += 1;
    }
    proof {
        assert(out@ =~= burst_deadlines(burst_count, now));
    }
    out
}

/// A delay of a burst is at most 2³¹ seconds.
proof fn lemma_burst_bound(burst_count: u8, i: int)
    requires
        0 <= i < burst_count,
    ensures
        burst_delays(burst_count)[i].nanos <= 0x8000_0000 * 1_000_000_000,
{
    vstd::arithmetic::power2::lemma2_to64();
    let k = (if i < 31 {
        i
    } else {
        31
    }) as nat;
    if k < 31 {
        vstd::arithmetic::power2::lemma_pow2_strictly_increases(k, 31);
    }
}

/// Why the main loop woke from its idle wait.
#[derive(Debug, Clone, Copy, PartialEq, Eq, Structural)]
pub enum WakeReason {
    Timeout,
    IfaceChange,
    Suspend,
    Shutdown,
    Microinit,
}

/// Takes in why the main loop woke. A resume after suspend asks for new sockets
/// everywhere; a change of an interface asks for a new announcement only, and
/// for nothing while new sockets are on their way.
pub fn apply_wake(
    reason: WakeReason,
    membership: &mut MembershipRefresh,
    force_reannounce: &mut bool,
    recreate_daemon: &mut bool,
)
    ensures
        *final(force_reannounce) == (*old(force_reannounce) || reason is Suspend || (reason
            is IfaceChange && !*old(recreate_daemon))),
        *final(recreate_daemon) == (*old(recreate_daemon) || reason is Suspend),
        final(membership).spec_epoch() == (if reason is Suspend {
            old(membership).spec_epoch().wrapping_add(1)
        } else {
            old(membership).spec_epoch()
        }),
        final(membership).rebind_wanted() == (old(membership).rebind_wanted() || reason
            is Suspend),
{
    match reason {
        WakeReason::IfaceChange => {
            if *recreate_daemon {
                return;
            }
            *force_reannounce = true;
        },
        WakeReason::Suspend => {
            membership.request_rebind();
            *recreate_daemon = true;
            *force_reannounce = true;
        },
        WakeReason::Timeout | WakeReason::Shutdown | WakeReason::Microinit => {},
    }
}

/// Failures are reported loudly once: while they go on they are whispered, and
/// after a recovery the next one is loud again.
pub proof fn failures_warn_once(s: ThrottleView, first: Seq<char>, second: Seq<char>)
    ensures
        s.failed(first).level() is Debug,
        s.failed(first).failed(second).level() is Debug,
        s.failed(first).recovered().level() is Warn,
        !s.failed(first).recovered().failing,
{
}

/// Once the plan for the beacons is carried out, exactly the wanted ones run.
pub proof fn beacons_reach_wanted(active: Seq<BeaconWant>, want: Seq<BeaconWant>, b: BeaconWant)
    ensures
        (active.contains(b) && want.contains(b)) || want.filter(not_among(active)).contains(b)
            <==> want.contains(b),
{
    lemma_filter_has(want, not_among(active), b);
}

/// A running program is advertised for each protocol that is enabled and has a
/// port other than zero, and for nothing else: Z21 on the Z21 port of the
/// program, WiThrottle on its own. The Z21 advertisement carries the serial of
/// the beacon, which broadcasts on the same port; there is a beacon only where
/// beacons are wanted.
pub proof fn stations_advertise_their_own_ports(
    p: ProgramView,
    host: Option<Seq<char>>,
    ad: DynView,
    beacon: bool,
    b: BeaconWant,
)
    ensures
        ({
            let z21 = p.running && p.z21_enabled && p.z21_port != 0;
            let withrottle = p.running && p.withrottle_enabled && p.withrottle_port != 0;
            let ads = station_ads(p, host);
            &&& ads.len() == (if z21 { 1int } else { 0 }) + (if withrottle { 1int } else { 0 })
            &&& station_beacons(p, beacon).len() == (if z21 && beacon { 1int } else { 0 })
            &&& z21 ==> exists|i: int|
                0 <= i < ads.len() && (#[trigger] ads[i]).entry.type_ == "_z21._udp"@
            &&& withrottle ==> exists|i: int|
                0 <= i < ads.len() && (#[trigger] ads[i]).entry.type_ == "_withrottle._tcp"@
            &&& ads.contains(ad) ==> {
                ||| z21 && ad.entry.type_ == "_z21._udp"@ && ad.entry.protocol == "udp"@
                    && ad.entry.port == p.z21_port
                ||| withrottle && ad.entry.type_ == "_withrottle._tcp"@ && ad.entry.protocol
                    == "tcp"@ && ad.entry.port == p.withrottle_port
            }
            &&& station_beacons(p, beacon).contains(b) ==> b.port == p.z21_port
            &&& ads.contains(ad) && ad.entry.type_ == "_z21._udp"@ && station_beacons(
                p,
                beacon,
            ).contains(b) ==> b.port == ad.entry.port && ad.entry.txt is Some
                && ad.entry.txt->0.contains_key("serial"@) && ad.entry.txt->0["serial"@] == decimal(
                b.serial as nat,
            )
        }),
{
    reveal_strlit("_z21._udp");
    reveal_strlit("_withrottle._tcp");
    reveal_strlit("serial");
    let ads = station_ads(p, host);
    assert("_z21._udp"@.len() != "_withrottle._tcp"@.len());
    if ads.len() > 0 {
        assert(ads[0] == ads[0]);
    }
    if ads.len() > 1 {
        assert(ads[1] == ads[1]);
    }
    if p.running && p.z21_enabled && p.z21_port != 0 {
        assert(ads[0].entry.type_ == "_z21._udp"@);
    }
    if p.running && p.withrottle_enabled && p.withrottle_port != 0 {
        assert(ads[ads.len() - 1].entry.type_ == "_withrottle._tcp"@);
    }
}

/// Every advertisement of a program names its command station, tells its
/// layout in the TXT properties, and takes the configured host where that is
/// not blank. The name of the layout is told where it is not blank, the serial
/// for Z21 alone; there are no other properties.
pub proof fn stations_tell_their_layout(
    p: ProgramView,
    host: Option<Seq<char>>,
    i: int,
    key: Seq<char>,
)
    requires
        0 <= i < station_ads(p, host).len(),
    ensures
        ({
            let ad = station_ads(p, host)[i];
            let txt = ad.entry.txt->0;
            &&& ad.source is DccBus
            &&& ad.entry.name == "BigFred #"@ + decimal(p.command_station_id as nat)
            &&& ad.entry.host is Some <==> host is Some && trimmed(host->0).len() > 0
            &&& ad.entry.host is Some ==> ad.entry.host->0 == trimmed(host->0)
            &&& ad.entry.txt is Some
            &&& txt.contains_key("proto"@) && txt["proto"@] == ad.entry.protocol
            &&& txt.contains_key("layoutId"@) && txt["layoutId"@] == decimal(p.layout_id as nat)
            &&& txt.contains_key("commandStationId"@) && txt["commandStationId"@] == decimal(
                p.command_station_id as nat,
            )
            &&& txt.contains_key("layoutName"@) <==> trimmed(p.layout_name).len() > 0
            &&& txt.contains_key("layoutName"@) ==> txt["layoutName"@] == trimmed(p.layout_name)
            &&& txt.contains_key("serial"@) <==> ad.entry.type_ == "_z21._udp"@
            &&& txt.contains_key("serial"@) ==> txt["serial"@] == decimal(
                ((258_000_000 + p.layout_id * 1000 + p.command_station_id) % 0x1_0000_0000) as nat,
            )
            &&& txt.contains_key(key) ==> key == "proto"@ || key == "layoutId"@ || key
                == "commandStationId"@ || key == "layoutName"@ || key == "serial"@
        }),
{
    reveal_strlit("_z21._udp");
    reveal_strlit("_withrottle._tcp");
    reveal_strlit("proto");
    reveal_strlit("layoutId");
    reveal_strlit("commandStationId");
    reveal_strlit("layoutName");
    reveal_strlit("serial");
    assert("_z21._udp"@.len() != "_withrottle._tcp"@.len());
    assert("proto"@.len() == 5 && "layoutId"@.len() == 8 && "commandStationId"@.len() == 16
        && "layoutName"@.len() == 10 && "serial"@.len() == 6);
}

/// What is advertised dynamically is what the programs advertise and what
/// microinit has labeled, and nothing else; each as often as it is told of.
pub proof fn dynamic_is_exact(
    base: DesiredView,
    programs: Seq<ProgramView>,
    microinit: Seq<EntryView>,
    beacon: bool,
    host: Option<Seq<char>>,
    d: DynView,
    b: BeaconWant,
)
    ensures
        ({
            let all = with_dynamic(base, programs, microinit, beacon, host);
            &&& all.dynamic.contains(d) <==> {
                ||| base.dynamic.contains(d)
                ||| exists|i: int|
                    0 <= i < programs.len() && station_ads(#[trigger] programs[i], host).contains(d)
                ||| d.source is Microinit && microinit.contains(d.entry)
            }
            &&& all.beacons.contains(b) <==> {
                ||| base.beacons.contains(b)
                ||| exists|i: int|
                    0 <= i < programs.len() && station_beacons(
                        #[trigger] programs[i],
                        beacon,
                    ).contains(b)
            }
            &&& all.beacons.no_duplicates()
            &&& all.static_services == base.static_services
            &&& all.ips == base.ips && all.ips_v6 == base.ips_v6
            &&& all.interfaces == base.interfaces && all.skip_interfaces == base.skip_interfaces
        }),
{
    let stations = all_station_ads(programs, host);
    let labeled = microinit_ads(microinit);
    let told = base.dynamic + stations + labeled;
    lemma_stable_sorted::<DynAd>(told);
    lemma_sorts_contains::<DynAd>(stable_sorted::<DynAd>(told), told, d);
    lemma_sum_has(base.dynamic + stations, labeled, d);
    lemma_sum_has(base.dynamic, stations, d);
    lemma_stations_have(programs, host, beacon, d, b);
    if labeled.contains(d) {
        let i = choose|i: int| 0 <= i < labeled.len() && labeled[i] == d;
        assert(microinit[i] == d.entry);
    }
    if d.source is Microinit && microinit.contains(d.entry) {
        let i = choose|i: int| 0 <= i < microinit.len() && microinit[i] == d.entry;
        assert(labeled[i] == d);
    }
    let lamps = all_station_beacons(programs, beacon);
    crate::order::distinct_keeps_every_value::<BeaconWant>(base.beacons + lamps, b);
    lemma_sum_has(base.beacons, lamps, b);
}

/// The advertisements of all programs are those of each.
proof fn lemma_stations_have(
    programs: Seq<ProgramView>,
    host: Option<Seq<char>>,
    beacon: bool,
    d: DynView,
    b: BeaconWant,
)
    ensures
        all_station_ads(programs, host).contains(d) <==> exists|i: int|
            0 <= i < programs.len() && station_ads(#[trigger] programs[i], host).contains(d),
        all_station_beacons(programs, beacon).contains(b) <==> exists|i: int|
            0 <= i < programs.len() && station_beacons(#[trigger] programs[i], beacon).contains(b),
    decreases programs.len(),
{
    if programs.len() > 0 {
        let before = programs.drop_last();
        let l = programs.last();
        let n = programs.len() - 1;
        assert(programs[n] == l);
        lemma_stations_have(before, host, beacon, d, b);
        lemma_sum_has(all_station_ads(before, host), station_ads(l, host), d);
        lemma_sum_has(all_station_beacons(before, beacon), station_beacons(l, beacon), b);
        if exists|i: int|
            0 <= i < before.len() && station_ads(#[trigger] before[i], host).contains(d) {
            let i = choose|i: int|
                0 <= i < before.len() && station_ads(#[trigger] before[i], host).contains(d);
            assert(programs[i] == before[i]);
        }
        if exists|i: int|
            0 <= i < before.len() && station_beacons(#[trigger] before[i], beacon).contains(b) {
            let i = choose|i: int|
                0 <= i < before.len() && station_beacons(#[trigger] before[i], beacon).contains(b);
            assert(programs[i] == before[i]);
        }
        if exists|i: int|
            0 <= i < programs.len() && station_ads(#[trigger] programs[i], host).contains(d) {
            let i = choose|i: int|
                0 <= i < programs.len() && station_ads(#[trigger] programs[i], host).contains(d);
            if i < n {
                assert(before[i] == programs[i]);
            }
        }
        if exists|i: int|
            0 <= i < programs.len() && station_beacons(#[trigger] programs[i], beacon).contains(b) {
            let i = choose|i: int|
                0 <= i < programs.len() && station_beacons(#[trigger] programs[i], beacon).contains(
                    b,
                );
            if i < n {
                assert(before[i] == programs[i]);
            }
        }
    }
}

/// Each program adds as many advertisements as it has, and each labeled entry
/// adds one.
pub proof fn dynamic_counts_add_up(
    base: DesiredView,
    programs: Seq<ProgramView>,
    p: ProgramView,
    microinit: Seq<EntryView>,
    beacon: bool,
    host: Option<Seq<char>>,
)
    ensures
        with_dynamic(base, programs.push(p), microinit, beacon, host).dynamic.len()
            == with_dynamic(base, programs, microinit, beacon, host).dynamic.len() + station_ads(
            p,
            host,
        ).len(),
        with_dynamic(base, Seq::empty(), microinit, beacon, host).dynamic.len()
            == base.dynamic.len() + microinit.len(),
{
    let none = Seq::<ProgramView>::empty();
    assert(programs.push(p).drop_last() =~= programs);
    crate::order::sorting_keeps_everything::<DynAd>(
        base.dynamic + all_station_ads(programs.push(p), host) + microinit_ads(microinit),
    );
    crate::order::sorting_keeps_everything::<DynAd>(
        base.dynamic + all_station_ads(programs, host) + microinit_ads(microinit),
    );
    crate::order::sorting_keeps_everything::<DynAd>(
        base.dynamic + all_station_ads(none, host) + microinit_ads(microinit),
    );
}

/// The entries to be registered are those that are to be advertised, static
/// and dynamic, each under its DNS-SD name; of several with one name the last
/// counts.
pub proof fn every_entry_has_its_name(ads: DesiredView, k: Seq<char>, i: int)
    ensures
        ({
            let target = by_name(entries_of(ads));
            let n = ads.static_services.len() as int;
            let here = if i < n {
                ads.static_services[i]
            } else {
                ads.dynamic[i - n].entry
            };
            &&& target.contains_key(k) <==> {
                ||| exists|j: int|
                    0 <= j < n && full_name(
                        (#[trigger] ads.static_services[j]).name,
                        ads.static_services[j].type_,
                    ) == k
                ||| exists|j: int|
                    0 <= j < ads.dynamic.len() && full_name(
                        (#[trigger] ads.dynamic[j]).entry.name,
                        ads.dynamic[j].entry.type_,
                    ) == k
            }
            &&& 0 <= i < n + ads.dynamic.len() && full_name(here.name, here.type_) == k && (
            forall|j: int|
                i < j < n + ads.dynamic.len() ==> full_name(
                    (#[trigger] entries_of(ads)[j]).name,
                    entries_of(ads)[j].type_,
                ) != k) ==> target[k] == here
        }),
{
    let all = entries_of(ads);
    let n = ads.static_services.len() as int;
    lemma_by_name(all, k, i);
    assert forall|j: int| 0 <= j < all.len() implies #[trigger] all[j] == (if j < n {
        ads.static_services[j]
    } else {
        ads.dynamic[j - n].entry
    }) by {}
    if by_name(all).contains_key(k) {
        let j = choose|j: int|
            0 <= j < all.len() && full_name((#[trigger] all[j]).name, all[j].type_) == k;
        if j < n {
            assert(ads.static_services[j] == all[j]);
        } else {
            assert(ads.dynamic[j - n].entry == all[j]);
        }
    }
    if exists|j: int|
        0 <= j < n && full_name(
            (#[trigger] ads.static_services[j]).name,
            ads.static_services[j].type_,
        ) == k {
        let j = choose|j: int|
            0 <= j < n && full_name(
                (#[trigger] ads.static_services[j]).name,
                ads.static_services[j].type_,
            ) == k;
        assert(all[j] == ads.static_services[j]);
    }
    if exists|j: int|
        0 <= j < ads.dynamic.len() && full_name(
            (#[trigger] ads.dynamic[j]).entry.name,
            ads.dynamic[j].entry.type_,
        ) == k {
        let j = choose|j: int|
            0 <= j < ads.dynamic.len() && full_name(
                (#[trigger] ads.dynamic[j]).entry.name,
                ads.dynamic[j].entry.type_,
            ) == k;
        assert(all[n + j] == ads.dynamic[j].entry);
    }
}

/// Which names entries have, and which entry counts.
proof fn lemma_by_name(entries: Seq<EntryView>, k: Seq<char>, i: int)
    ensures
        by_name(entries).contains_key(k) <==> exists|j: int|
            0 <= j < entries.len() && full_name((#[trigger] entries[j]).name, entries[j].type_)
                == k,
        0 <= i < entries.len() && full_name(entries[i].name, entries[i].type_) == k && (forall|
            j: int,
        |
            i < j < entries.len() ==> full_name((#[trigger] entries[j]).name, entries[j].type_)
                != k) ==> by_name(entries)[k] == entries[i],
    decreases entries.len(),
{
    if entries.len() > 0 {
        let d = entries.drop_last();
        let n = entries.len() - 1;
        lemma_by_name(d, k, i);
        assert(entries[n] == entries.last());
        if by_name(d).contains_key(k) {
            let j = choose|j: int|
                0 <= j < d.len() && full_name((#[trigger] d[j]).name, d[j].type_) == k;
            assert(entries[j] == d[j]);
        }
        if exists|j: int|
            0 <= j < entries.len() && full_name((#[trigger] entries[j]).name, entries[j].type_)
                == k {
            let j = choose|j: int|
                0 <= j < entries.len() && full_name((#[trigger] entries[j]).name, entries[j].type_)
                    == k;
            if j < n {
                assert(d[j] == entries[j]);
            }
        }
        if 0 <= i < n && full_name(entries[i].name, entries[i].type_) == k && (forall|j: int|
            i < j < entries.len() ==> full_name((#[trigger] entries[j]).name, entries[j].type_)
                != k) {
            assert(full_name(entries[n].name, entries[n].type_) != k);
            assert forall|j: int| i < j < d.len() implies full_name(
                (#[trigger] d[j]).name,
                d[j].type_,
            ) != k by {
                assert(entries[j] == d[j]);
            }
            assert(d[i] == entries[i]);
        }
    }
}

/// A plan holds an action exactly where it is called for: a name that is
/// desired and not registered is added, one that is registered and not desired
/// is dropped, and one that is both is refreshed if its entry differs or
/// everything is to be refreshed.
pub proof fn plan_is_exact(desired: Services, registered: Services, all: bool, k: Seq<char>)
    requires
        desired.dom().finite(),
        registered.dom().finite(),
    ensures
        plan(desired, registered, all).contains(ActionView::Add(k)) <==> desired.contains_key(k)
            && !registered.contains_key(k),
        plan(desired, registered, all).contains(ActionView::Drop(k)) <==> registered.contains_key(k)
            && !desired.contains_key(k),
        plan(desired, registered, all).contains(ActionView::Refresh(k)) <==> desired.contains_key(k)
            && registered.contains_key(k) && (all || registered[k] != desired[k]),
        plan(desired, registered, all).no_duplicates(),
{
    lemma_plan(desired, registered, all);
    let p = plan(desired, registered, all);
    assert forall|i: int, j: int| 0 <= i < p.len() && 0 <= j < p.len() && i != j implies p[i]
        != p[j] by {
        if i < j {
            assert(p[i].key() != p[j].key());
        } else {
            assert(p[j].key() != p[i].key());
        }
    }
}

/// An action that was carried out concerns its own name only: adding and
/// refreshing register the desired entry, dropping leaves none.
pub proof fn action_touches_its_name_only(
    registered: Services,
    desired: Services,
    name: Seq<char>,
    other: Seq<char>,
)
    requires
        desired.contains_key(name),
        other != name,
    ensures
        ({
            let added = applied(registered, desired, ActionView::Add(name));
            let refreshed = applied(registered, desired, ActionView::Refresh(name));
            let dropped = applied(registered, desired, ActionView::Drop(name));
            &&& added.contains_key(name) && added[name] == desired[name]
            &&& refreshed.contains_key(name) && refreshed[name] == desired[name]
            &&& !dropped.contains_key(name)
            &&& added.contains_key(other) == registered.contains_key(other)
            &&& refreshed.contains_key(other) == registered.contains_key(other)
            &&& dropped.contains_key(other) == registered.contains_key(other)
            &&& registered.contains_key(other) ==> added[other] == registered[other]
                && refreshed[other] == registered[other] && dropped[other] == registered[other]
        }),
{
}

/// The backoff starts at two seconds and doubles with each failure, as long as
/// the cap lets it and for sixteen steps.
pub proof fn backoff_doubles(failures: nat, cap: u64)
    ensures
        cap >= 2000 ==> backoff(0, cap) == 2000,
        failures < 15 && cap >= 2 * backoff(failures, cap) ==> backoff(failures + 1, cap) == 2
            * backoff(failures, cap),
        failures < 15 && 500 <= cap < 2 * backoff(failures, cap) ==> backoff(failures + 1, cap)
            == cap,
        failures >= 15 ==> backoff(failures + 1, cap) == backoff(failures, cap),
        cap >= 65_536_000 && failures >= 15 ==> backoff(failures, cap) == 65_536_000,
{
    vstd::arithmetic::power2::lemma2_to64();
    if failures < 15 {
        vstd::arithmetic::power2::lemma_pow2_unfold((failures + 1) as nat);
    }
}

/// A burst has as many announcements as configured: the first a second from
/// now, and each later one twice as far away as the one before it.
pub proof fn bursts_double(burst_count: u8, now: u64, i: int)
    requires
        0 <= i < burst_count <= 32,
    ensures
        burst_deadlines(burst_count, now).len() == burst_count,
        burst_deadlines(burst_count, now)[0] == now + 1_000_000_000,
        i > 0 ==> burst_deadlines(burst_count, now)[i] - now == 2 * (burst_deadlines(
            burst_count,
            now,
        )[i - 1] - now),
{
    vstd::arithmetic::power2::lemma2_to64();
    lemma_burst_bound(burst_count, i);
    lemma_burst_bound(burst_count, 0);
    lemma_power_fits(i as nat);
    lemma_power_fits(0);
    if i > 0 {
        lemma_power_fits((i - 1) as nat);
        vstd::arithmetic::power2::lemma_pow2_unfold(i as nat);
    }
}

/// Powers of two up to the largest delay.
proof fn lemma_power_fits(k: nat)
    requires
        k <= 31,
    ensures
        0 < pow2(k) <= 0x8000_0000,
{
    vstd::arithmetic::power2::lemma2_to64();
    vstd::arithmetic::power2::lemma_pow2_pos(k);
    if k < 31 {
        vstd::arithmetic::power2::lemma_pow2_strictly_increases(k, 31);
    }
}

} // verus!
