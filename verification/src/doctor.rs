//! Local + live-daemon diagnostics for `microdns doctor`.

use vstd::prelude::*;

use crate::config::{Config, ConfigView};
use crate::ctl::{DaemonDoctor, DaemonDoctorView, ListedService, ListedView};
use crate::grouping::{
    iface_names, index_of, lemma_picked, names_of, of4, of6, pick4, pick6, picked_index,
};
use crate::legacy_unicast::{Addr4View, Addr6View, IfaceAddr4, IfaceAddr6};
use crate::mdns::{
    best4, best6, ipv4_addrs, ipv4_texts, ipv6_addrs, ipv6_texts, plain4, plain6,
    preferred_ipv4_ifaces, preferred_ipv6_addrs, show4, show6, IfaceInfo,
};
use crate::net::Ipv4Addr;
use crate::numeral::{decimal, signed_decimal, to_decimal, to_signed_decimal};
use crate::selfcheck::{igmp_after, parse_igmp, Escalation};
use crate::text::{
    bool_text, debug_list, join, joined, lines, quote, quoted, show_bool, show_list, texts,
};
use crate::textmap::{lemma_ordered_mapped, lemma_take, map_of, ordered_pairs, rising, TextMap};
use crate::value::{copy_list, lemma_views_push, list_has, views, Value};

verus! {

/// Combined doctor output (local kernel state plus optional live daemon).
#[derive(Debug)]
pub struct DoctorReport {
    pub interfaces: Vec<IfaceRow>,
    pub skip_interfaces: Vec<String>,
    pub allow_interfaces: Vec<String>,
    pub igmp: TextMap<Vec<String>>,
    pub igmp_raw: String,
    pub dev_mcast: String,
    pub daemon: Option<DaemonDoctor>,
}

/// One usable interface with its addresses as text.
#[derive(Debug, PartialEq, Eq)]
pub struct IfaceRow {
    pub name: String,
    pub ifindex: u32,
    pub ipv4: Vec<String>,
    pub ipv6: Vec<String>,
}

/// What an [`IfaceRow`] stands for.
#[verifier::ext_equal]
pub struct RowView {
    pub name: Seq<char>,
    pub ifindex: u32,
    pub ipv4: Seq<Seq<char>>,
    pub ipv6: Seq<Seq<char>>,
}

/// The multicast groups that interfaces have joined, as text.
pub type GroupTexts = Map<Seq<char>, Seq<Seq<char>>>;

/// The views of the groups of interfaces.
pub open spec fn group_views(m: Map<Seq<char>, Seq<String>>) -> GroupTexts {
    m.map_values(|g: Seq<String>| texts(g))
}

/// What a [`DoctorReport`] stands for.
#[verifier::ext_equal]
pub struct DoctorView {
    pub interfaces: Seq<RowView>,
    pub skip_interfaces: Seq<Seq<char>>,
    pub allow_interfaces: Seq<Seq<char>>,
    pub igmp: GroupTexts,
    pub igmp_raw: Seq<char>,
    pub dev_mcast: Seq<char>,
    pub daemon: Option<DaemonDoctorView>,
}

impl View for IfaceRow {
    type V = RowView;

    open spec fn view(&self) -> RowView {
        RowView {
            name: self.name@,
            ifindex: self.ifindex,
            ipv4: texts(self.ipv4@),
            ipv6: texts(self.ipv6@),
        }
    }
}

impl View for DoctorReport {
    type V = DoctorView;

    open spec fn view(&self) -> DoctorView {
        DoctorView {
            interfaces: views(self.interfaces@),
            skip_interfaces: texts(self.skip_interfaces@),
            allow_interfaces: texts(self.allow_interfaces@),
            igmp: group_views(self.igmp@),
            igmp_raw: self.igmp_raw@,
            dev_mcast: self.dev_mcast@,
            daemon: crate::value::opt_view(self.daemon),
        }
    }
}

/// The row of one interface.
pub open spec fn row_of(name: Seq<char>, v4: Seq<Addr4View>, v6: Seq<Addr6View>) -> RowView {
    RowView {
        name,
        ifindex: index_of(name, v4, v6),
        ipv4: show4(plain4(v4.filter(of4(name)))),
        ipv6: show6(plain6(v6.filter(of6(name)))),
    }
}

/// The rows of the usable interfaces, by name.
pub open spec fn rows_of(v4: Seq<Addr4View>, v6: Seq<Addr6View>) -> Seq<RowView> {
    iface_names(v4, v6).map_values(|n: Seq<char>| row_of(n, v4, v6))
}

/// The rows of the usable interfaces, by name.
pub fn iface_rows(v4: &[IfaceAddr4], v6: &[IfaceAddr6]) -> (r: Vec<IfaceRow>)
    ensures
        views(r@) == rows_of(views(v4@), views(v6@)),
{
    let names = names_of(v4, v6);
    let ghost all = texts(names@);
    let ghost f = |n: Seq<char>| row_of(n, views(v4@), views(v6@));
    let mut out: Vec<IfaceRow> = Vec::new();
    let mut i: usize = 0;
    while i < names.len()
        invariant
            i == out@.len() <= names@.len(),
            all == texts(names@),
            f == (|n: Seq<char>| row_of(n, views(v4@), views(v6@))),
            forall|k: int| 0 <= k < i ==> (#[trigger] views(out@)[k]) == f(all[k]),
        decreases names@.len() - i,
    {
        let name = names[i].as_str();
        let a = pick4(v4, name);
        let b = pick6(v6, name);
        let ifindex: u32 = picked_index(&a, &b);
        let row = IfaceRow {
            name: name.to_owned(),
            ifindex,
            ipv4: ipv4_texts(&ipv4_addrs(&a)),
            ipv6: ipv6_texts(&ipv6_addrs(&b)),
        };
        let ghost before = out@;
        out.push(row);
        proof {
            lemma_picked(a@, b@, views(v4@), views(v6@), name@);
            lemma_views_push(before, row);
            assert(before.push(row) =~= out@);
            assert(row@ == f(all[i as int]));
        }
        i += 1;
    }
    proof {
        assert(views(out@) =~= rows_of(views(v4@), views(v6@)));
    }
    out
}

/// The groups of interfaces as text.
fn group_texts(groups: &TextMap<Vec<Ipv4Addr>>) -> (r: TextMap<Vec<String>>)
    ensures
        group_views(r@) == groups@.map_values(|g: Seq<Ipv4Addr>| show4(g)),
{
    let n: usize = groups.len();
    let ghost listing = groups.listing();
    let ghost f = |g: Seq<Ipv4Addr>| show4(g);
    let mut out: TextMap<Vec<String>> = TextMap::new();
    let mut i: usize = 0;
    proof {
        assert(group_views(out@) =~= map_of(listing.take(0)).map_values(f));
    }
    while i < n
        invariant
            n == listing.len(),
            listing == groups.listing(),
            rising(listing),
            f == (|g: Seq<Ipv4Addr>| show4(g)),
            i <= n,
            group_views(out@) == map_of(listing.take(i as int)).map_values(f),
        decreases n - i,
    {
        let shown = ipv4_texts(groups.value_at(i));
        let ghost known = out@;
        let ghost before = map_of(listing.take(i as int));
        let ghost (name, here) = listing[i as int];
        proof {
            lemma_take(listing, i as int);
            assert(before.insert(name, here).map_values(f) =~= before.map_values(f).insert(
                name,
                f(here),
            ));
            assert(group_views(known.insert(name, shown@)) =~= group_views(known).insert(
                name,
                texts(shown@),
            ));
        }
        out.insert(groups.key_at(i).copied(), shown);
        i += 1;
    }
    proof {
        assert(listing.take(i as int) =~= listing);
    }
    out
}

/// The report on given observations.
pub open spec fn report_of(
    cfg: ConfigView,
    ifaces: Seq<IfaceInfo>,
    igmp_raw: Seq<char>,
    dev_mcast: Seq<char>,
    daemon: Option<DaemonDoctorView>,
) -> DoctorView {
    DoctorView {
        interfaces: rows_of(
            best4(ifaces, cfg.interfaces, cfg.skip_interfaces),
            best6(ifaces, cfg.interfaces, cfg.skip_interfaces),
        ),
        skip_interfaces: cfg.skip_interfaces,
        allow_interfaces: cfg.interfaces,
        igmp: igmp_after(lines(igmp_raw)).groups.map_values(|g: Seq<Ipv4Addr>| show4(g)),
        igmp_raw,
        dev_mcast,
        daemon,
    }
}

/// Puts a report together from the interfaces, the multicast tables of the
/// kernel and what a running daemon says of itself.
pub fn collect_with_config(
    cfg: &Config,
    ifaces: &[IfaceInfo],
    igmp_raw: String,
    dev_mcast: String,
    daemon: Option<DaemonDoctor>,
) -> (r: DoctorReport)
    ensures
        r@ == report_of(
            cfg@,
            ifaces@,
            igmp_raw@,
            dev_mcast@,
            crate::value::opt_view(daemon),
        ),
{
    let v4 = preferred_ipv4_ifaces(ifaces, &cfg.interfaces, &cfg.skip_interfaces);
    let v6 = preferred_ipv6_addrs(ifaces, &cfg.interfaces, &cfg.skip_interfaces);
    let igmp = group_texts(&parse_igmp(igmp_raw.as_str()));
    DoctorReport {
        interfaces: iface_rows(&v4, &v6),
        skip_interfaces: copy_list(&cfg.skip_interfaces),
        allow_interfaces: copy_list(&cfg.interfaces),
        igmp,
        igmp_raw,
        dev_mcast,
        daemon,
    }
}

/// The line of one interface, given its addresses as lists.
pub open spec fn row_line(
    name: Seq<char>,
    ifindex: u32,
    v4_shown: Seq<char>,
    v6_shown: Seq<char>,
) -> Seq<char> {
    "  "@ + name + " ifindex="@ + decimal(ifindex as nat) + " ipv4="@ + v4_shown + " ipv6="@
        + v6_shown + "\n"@
}

/// The line of one interface, given its addresses as lists.
pub fn show_row(name: &str, ifindex: u32, v4_shown: &str, v6_shown: &str) -> (r: String)
    ensures
        r@ == row_line(name@, ifindex, v4_shown@, v6_shown@),
{
    let mut out = "  ".to_owned();
    out.append(name);
    out.append(" ifindex=");
    out.append(to_decimal(ifindex as u64).as_str());
    out.append(" ipv4=");
    out.append(v4_shown);
    out.append(" ipv6=");
    out.append(v6_shown);
    out.append("\n");
    out
}

/// The lines of the first `n` interfaces.
pub open spec fn row_lines(rows: Seq<RowView>, n: nat) -> Seq<char>
    decreases n,
{
    if n == 0 {
        Seq::empty()
    } else {
        let row = rows[n - 1];
        row_lines(rows, (n - 1) as nat) + row_line(
            row.name,
            row.ifindex,
            debug_list(row.ipv4),
            debug_list(row.ipv6),
        )
    }
}

/// The interfaces of a report.
pub open spec fn interfaces_text(rows: Seq<RowView>) -> Seq<char> {
    "interfaces (usable for mDNS):\n"@ + (if rows.len() == 0 {
        "  (none)\n"@
    } else {
        row_lines(rows, rows.len())
    })
}

/// Shows the interfaces of a report.
fn show_interfaces(rows: &[IfaceRow]) -> (r: String)
    ensures
        r@ == interfaces_text(views(rows@)),
{
    let ghost all = views(rows@);
    let mut out = "interfaces (usable for mDNS):\n".to_owned();
    let ghost head = out@;
    assert(all.len() == rows@.len());
    if rows.len() == 0 {
        out.append("  (none)\n");
        return out;
    }
    let mut i: usize = 0;
    proof {
        assert(head + row_lines(all, 0) =~= head);
    }
    while i < rows.len()
        invariant
            i <= rows@.len(),
            all == views(rows@),
            out@ == head + row_lines(all, i as nat),
        decreases rows@.len() - i,
    {
        let row = &rows[i];
        let ghost before = out@;
        let line = show_row(
            row.name.as_str(),
            row.ifindex,
            show_list(&row.ipv4).as_str(),
            show_list(&row.ipv6).as_str(),
        );
        out.append(line.as_str());
        proof {
            assert(all[i as int] == row@);
            assert(before + line@ =~= head + row_lines(all, (i + 1) as nat));
        }
        i += 1;
    }
    out
}

/// The configured lists, as text.
pub open spec fn lists_line(allow_shown: Seq<char>, skip_shown: Seq<char>) -> Seq<char> {
    "allow="@ + allow_shown + " skip="@ + skip_shown + "\n"@
}

/// The configured lists, as text.
pub fn show_lists(allow_shown: &str, skip_shown: &str) -> (r: String)
    ensures
        r@ == lists_line(allow_shown@, skip_shown@),
{
    let mut out = "allow=".to_owned();
    out.append(allow_shown);
    out.append(" skip=");
    out.append(skip_shown);
    out.append("\n");
    out
}

/// The line of the groups of one interface, given them as a list.
pub open spec fn groups_line(name: Seq<char>, groups_shown: Seq<char>, mdns: bool) -> Seq<char> {
    "  "@ + name + ": "@ + groups_shown + " mdns="@ + (if mdns {
        "yes"@
    } else {
        "NO"@
    }) + "\n"@
}

/// The line of the groups of one interface, given them as a list.
pub fn show_groups(name: &str, groups_shown: &str, mdns: bool) -> (r: String)
    ensures
        r@ == groups_line(name@, groups_shown@, mdns),
{
    let mut out = "  ".to_owned();
    out.append(name);
    out.append(": ");
    out.append(groups_shown);
    out.append(" mdns=");
    if mdns {
        out.append("yes");
    } else {
        out.append("NO");
    }
    out.append("\n");
    out
}

/// The lines of the groups of the first `n` interfaces.
pub open spec fn igmp_lines(listing: Seq<(Seq<char>, Seq<Seq<char>>)>, n: nat) -> Seq<char>
    decreases n,
{
    if n == 0 {
        Seq::empty()
    } else {
        let (name, groups) = listing[n - 1];
        igmp_lines(listing, (n - 1) as nat) + groups_line(
            name,
            debug_list(groups),
            groups.contains("224.0.0.251"@),
        )
    }
}

/// The multicast groups of a report, by interface.
pub open spec fn igmp_text(igmp: GroupTexts) -> Seq<char> {
    let listing = ordered_pairs(igmp);
    "igmp groups:\n"@ + (if listing.len() == 0 {
        "  (empty /proc/net/igmp)\n"@
    } else {
        igmp_lines(listing, listing.len())
    })
}

/// Shows the multicast groups of a report.
fn show_igmp(igmp: &TextMap<Vec<String>>) -> (r: String)
    ensures
        r@ == igmp_text(group_views(igmp@)),
{
    let n: usize = igmp.len();
    let ghost listing = ordered_pairs(group_views(igmp@));
    let group = "224.0.0.251".to_owned();
    let mut out = "igmp groups:\n".to_owned();
    let ghost head = out@;
    proof {
        lemma_ordered_mapped(igmp.listing(), |g: Seq<String>| texts(g));
        assert(listing.len() == n);
    }
    if n == 0 {
        out.append("  (empty /proc/net/igmp)\n");
        return out;
    }
    let mut i: usize = 0;
    proof {
        assert(head + igmp_lines(listing, 0) =~= head);
    }
    while i < n
        invariant
            n == listing.len() == igmp.listing().len(),
            forall|k: int|
                0 <= k < n ==> (#[trigger] listing[k]) == (
                igmp.listing()[k].0, texts(igmp.listing()[k].1)),
            group@ == "224.0.0.251"@,
            i <= n,
            out@ == head + igmp_lines(listing, i as nat),
        decreases n - i,
    {
        let groups = igmp.value_at(i);
        let ghost before = out@;
        let line = show_groups(
            igmp.key_at(i).as_str(),
            show_list(groups).as_str(),
            list_has(groups, &group),
        );
        out.append(line.as_str());
        proof {
            assert(listing[i as int] == (igmp.listing()[i as int].0, texts(groups@)));
            assert(before + line@ =~= head + igmp_lines(listing, (i + 1) as nat));
        }
        i += 1;
    }
    out
}

/// One service in a line of services.
pub open spec fn service_text(s: ListedView) -> Seq<char> {
    s.entry.name + " "@ + s.entry.type_ + " :"@ + decimal(s.entry.port as nat)
}

/// One service in a line of services.
fn show_service(s: &ListedService) -> (r: String)
    ensures
        r@ == service_text(s@),
{
    let mut out = s.name.copied();
    out.append(" ");
    out.append(s.type_.as_str());
    out.append(" :");
    out.append(to_decimal(s.port as u64).as_str());
    out
}

/// A counter, zero where it is missing.
pub open spec fn metric(metrics: Map<Seq<char>, i64>, key: Seq<char>) -> int {
    if metrics.contains_key(key) {
        metrics[key] as int
    } else {
        0
    }
}

/// A counter as text, zero where it is missing.
fn show_metric(metrics: &TextMap<i64>, key: &str) -> (r: String)
    ensures
        r@ == signed_decimal(metric(metrics@, key@)),
{
    match metrics.get(key) {
        Some(n) => to_signed_decimal(*n),
        None => to_signed_decimal(0),
    }
}

/// The counters of the mDNS daemon.
pub open spec fn metrics_line(m: Map<Seq<char>, i64>) -> Seq<char> {
    "  metrics: register="@ + signed_decimal(metric(m, "register"@)) + " register-resend="@
        + signed_decimal(metric(m, "register-resend"@)) + " unregister="@ + signed_decimal(
        metric(m, "unregister"@),
    ) + " unregister-resend="@ + signed_decimal(metric(m, "unregister-resend"@)) + " respond="@
        + signed_decimal(metric(m, "respond"@)) + "\n"@
}

/// Shows the counters of the mDNS daemon.
pub fn show_metrics(m: &TextMap<i64>) -> (r: String)
    ensures
        r@ == metrics_line(m@),
{
    let mut out = "  metrics: register=".to_owned();
    out.append(show_metric(m, "register").as_str());
    out.append(" register-resend=");
    out.append(show_metric(m, "register-resend").as_str());
    out.append(" unregister=");
    out.append(show_metric(m, "unregister").as_str());
    out.append(" unregister-resend=");
    out.append(show_metric(m, "unregister-resend").as_str());
    out.append(" respond=");
    out.append(show_metric(m, "respond").as_str());
    out.append("\n");
    out
}

/// How long ago services were announced, by name.
pub open spec fn ages_text(ages: Seq<(Seq<char>, u64)>) -> Seq<char> {
    "{"@ + joined(
        ages.map_values(|p: (Seq<char>, u64)| quoted(p.0) + ": "@ + decimal(p.1 as nat)),
        ", "@,
    ) + "}"@
}

/// Shows how long ago services were announced.
fn show_ages(ages: &TextMap<u64>) -> (r: String)
    ensures
        r@ == ages_text(ordered_pairs(ages@)),
{
    let n: usize = ages.len();
    let ghost listing = ages.listing();
    let ghost f = |p: (Seq<char>, u64)| quoted(p.0) + ": "@ + decimal(p.1 as nat);
    let mut parts: Vec<String> = Vec::new();
    let mut i: usize = 0;
    while i < n
        invariant
            n == listing.len(),
            listing == ages.listing(),
            f == (|p: (Seq<char>, u64)| quoted(p.0) + ": "@ + decimal(p.1 as nat)),
            i == parts@.len() <= n,
            forall|k: int| 0 <= k < i ==> (#[trigger] texts(parts@)[k]) == f(listing[k]),
        decreases n - i,
    {
        let mut p = quote(ages.key_at(i).as_str());
        p.append(": ");
        p.append(to_decimal(*ages.value_at(i)).as_str());
        let ghost before = parts@;
        parts.push(p);
        proof {
            assert(texts(parts@) =~= texts(before).push(f(listing[i as int])));
        }
        i += 1;
    }
    proof {
        assert(texts(parts@) =~= listing.map_values(f));
    }
    let mut out = "{".to_owned();
    out.append(join(&parts, ", ").as_str());
    out.append("}");
    out
}

/// The name of a step of recovery.
pub open spec fn escalation_name(e: Escalation) -> Seq<char> {
    match e {
        Escalation::Nothing => "None"@,
        Escalation::Reannounce => "Reannounce"@,
        Escalation::RecreateDaemon => "RecreateDaemon"@,
    }
}

/// The name of a step of recovery.
fn show_escalation(e: Escalation) -> (r: &'static str)
    ensures
        r@ == escalation_name(e),
{
    match e {
        Escalation::Nothing => "None",
        Escalation::Reannounce => "Reannounce",
        Escalation::RecreateDaemon => "RecreateDaemon",
    }
}

/// What a report says of a running daemon, given the registered names and the
/// ages of the announcements as text.
pub open spec fn daemon_lines(
    d: DaemonDoctorView,
    registered_shown: Seq<char>,
    ages_shown: Seq<char>,
) -> Seq<char> {
    "daemon: running\n"@ + "  registered: "@ + registered_shown + "\n"@ + "  services: "@ + joined(
        d.services.map_values(|s: ListedView| service_text(s)),
        ", "@,
    ) + "\n"@ + metrics_line(d.metrics) + "  last announce (seconds ago): "@ + ages_shown + "\n"@
        + "  selfcheck: ok="@ + bool_text(d.selfcheck.ok) + " escalation="@ + escalation_name(
        d.selfcheck.escalation,
    ) + " "@ + d.selfcheck.message + "\n"@
}

/// Shows a running daemon, given the registered names and the ages of the
/// announcements as text.
pub fn show_daemon(d: &DaemonDoctor, registered_shown: &str, ages_shown: &str) -> (r: String)
    ensures
        r@ == daemon_lines(d@, registered_shown@, ages_shown@),
{
    let ghost f = |s: ListedView| service_text(s);
    let mut parts: Vec<String> = Vec::new();
    let mut i: usize = 0;
    while i < d.services.len()
        invariant
            i == parts@.len() <= d.services@.len(),
            f == (|s: ListedView| service_text(s)),
            forall|k: int| 0 <= k < i ==> (#[trigger] texts(parts@)[k]) == f(d@.services[k]),
        decreases d.services@.len() - i,
    {
        let ghost before = parts@;
        parts.push(show_service(&d.services[i]));
        proof {
            assert(texts(parts@) =~= texts(before).push(f(d@.services[i as int])));
        }
        i += 1;
    }
    proof {
        assert(texts(parts@) =~= d@.services.map_values(f));
    }
    let mut out = "daemon: running\n".to_owned();
    out.append("  registered: ");
    out.append(registered_shown);
    out.append("\n");
    out.append("  services: ");
    out.append(join(&parts, ", ").as_str());
    out.append("\n");
    out.append(show_metrics(&d.metrics).as_str());
    out.append("  last announce (seconds ago): ");
    out.append(ages_shown);
    out.append("\n");
    out.append("  selfcheck: ok=");
    out.append(show_bool(d.selfcheck.ok));
    out.append(" escalation=");
    out.append(show_escalation(d.selfcheck.escalation));
    out.append(" ");
    out.append(d.selfcheck.message.as_str());
    out.append("\n");
    out
}

/// What a report says of the daemon.
pub open spec fn daemon_text(daemon: Option<DaemonDoctorView>) -> Seq<char> {
    match daemon {
        None => "daemon: not running (ctl socket unreachable)\n"@,
        Some(d) => daemon_lines(
            d,
            debug_list(d.registered),
            ages_text(ordered_pairs(d.last_announce_secs_ago)),
        ),
    }
}

/// A report as text.
pub open spec fn doctor_text(r: DoctorView) -> Seq<char> {
    interfaces_text(r.interfaces) + lists_line(
        debug_list(r.allow_interfaces),
        debug_list(r.skip_interfaces),
    ) + igmp_text(r.igmp) + daemon_text(r.daemon)
}

/// Shows a report.
pub fn print_human(report: &DoctorReport) -> (r: String)
    ensures
        r@ == doctor_text(report@),
{
    let mut out = show_interfaces(&report.interfaces);
    out.append(
        show_lists(
            show_list(&report.allow_interfaces).as_str(),
            show_list(&report.skip_interfaces).as_str(),
        ).as_str(),
    );
    out.append(show_igmp(&report.igmp).as_str());
    match &report.daemon {
        None => {
            out.append("daemon: not running (ctl socket unreachable)\n");
        },
        Some(d) => {
            out.append(
                show_daemon(
                    d,
                    show_list(&d.registered).as_str(),
                    show_ages(&d.last_announce_secs_ago).as_str(),
                ).as_str(),
            );
        },
    }
    out
}

/// A report has one row for each interface that has an address, with its
/// addresses of both kinds, in their order.
pub proof fn rows_show_the_addresses(
    v4: Seq<Addr4View>,
    v6: Seq<Addr6View>,
    i: int,
    j: int,
)
    requires
        0 <= i < iface_names(v4, v6).len(),
    ensures
        ({
            let row = rows_of(v4, v6)[i];
            let a = v4.filter(|x: Addr4View| x.iface == row.name);
            let b = v6.filter(|x: Addr6View| x.iface == row.name);
            &&& rows_of(v4, v6).len() == iface_names(v4, v6).len()
            &&& row.name == iface_names(v4, v6)[i]
            &&& row.ifindex == index_of(row.name, v4, v6)
            &&& row.ipv4.len() == a.len() && row.ipv6.len() == b.len()
            &&& 0 <= j < a.len() ==> row.ipv4[j] == crate::net::dotted(a[j].addr)
            &&& 0 <= j < b.len() ==> row.ipv6[j] == crate::net::ipv6_text(b[j].addr)
        }),
{
    let row = rows_of(v4, v6)[i];
    assert(of4(row.name) =~= (|x: Addr4View| x.iface == row.name));
    assert(of6(row.name) =~= (|x: Addr6View| x.iface == row.name));
}

/// A report puts together the rows of the preferred addresses, the configured
/// lists, the joined groups as text, and what was read.
pub proof fn report_shows_what_was_read(
    cfg: ConfigView,
    ifaces: Seq<IfaceInfo>,
    igmp_raw: Seq<char>,
    dev_mcast: Seq<char>,
    daemon: Option<DaemonDoctorView>,
    name: Seq<char>,
    j: int,
)
    ensures
        ({
            let r = report_of(cfg, ifaces, igmp_raw, dev_mcast, daemon);
            let told = igmp_after(lines(igmp_raw)).groups;
            &&& r.interfaces == rows_of(
                best4(ifaces, cfg.interfaces, cfg.skip_interfaces),
                best6(ifaces, cfg.interfaces, cfg.skip_interfaces),
            )
            &&& r.allow_interfaces == cfg.interfaces
            &&& r.skip_interfaces == cfg.skip_interfaces
            &&& r.igmp_raw == igmp_raw && r.dev_mcast == dev_mcast && r.daemon == daemon
            &&& r.igmp.contains_key(name) == told.contains_key(name)
            &&& told.contains_key(name) ==> r.igmp[name].len() == told[name].len()
            &&& told.contains_key(name) && 0 <= j < told[name].len() ==> r.igmp[name][j]
                == crate::net::dotted(told[name][j])
        }),
{
}

/// A counter is shown as it is, and as zero where it is missing.
pub proof fn missing_counters_are_zero(metrics: Map<Seq<char>, i64>, key: Seq<char>, n: i64)
    ensures
        metric(metrics.insert(key, n), key) == n,
        metric(metrics.remove(key), key) == 0,
{
}

} // verus!
