//! Periodic self-verification of mDNS multicast membership and announcements.

use vstd::prelude::*;
use vstd::utf8::encode_utf8;

use crate::legacy_unicast::{Addr4View, IfaceAddr4};
use crate::mdns::AnnounceLog;
use crate::net::Ipv4Addr;
use crate::numeral::{parse_unsigned, unsigned_to};
use crate::order::{
    lemma_filter_has, lemma_sorted_distinct, lemma_sorts_contains, lemma_stable_sorted, sort,
    sort_distinct, sorted_distinct, stable_sorted, strictly_sorted,
};
use crate::text::{
    begins, chars_of, is_white, join, joined, lemma_filter_push, lines, split_lines, split_words,
    starts_with, strip_end, texts, trim, trim_end_char, trimmed, white, words,
};
use crate::textmap::TextMap;
use crate::time::Duration;
use crate::value::{copy_list, lemma_plain_views, views, Value};

verus! {

/// IPv4 mDNS group 224.0.0.251.
pub const MDNS_GROUP_V4: u32 = 0xe000_00fb;

/// Snapshot of the last self-check, shared with `microdns doctor`.
#[derive(Debug, PartialEq, Eq)]
pub struct Report {
    pub ok: bool,
    pub igmp_ok: bool,
    pub daemon_alive: bool,
    pub announce_fresh: bool,
    pub missing_igmp_ifaces: Vec<String>,
    pub stale_services: Vec<String>,
    pub escalation: Escalation,
    pub message: String,
}

/// How far the main loop has gone to recover from a failed check.
#[derive(Debug, Clone, Copy, PartialEq, Eq, Structural)]
pub enum Escalation {
    Nothing,
    Reannounce,
    RecreateDaemon,
}

/// What a [`Report`] stands for.
#[verifier::ext_equal]
pub struct ReportView {
    pub ok: bool,
    pub igmp_ok: bool,
    pub daemon_alive: bool,
    pub announce_fresh: bool,
    pub missing_igmp_ifaces: Seq<Seq<char>>,
    pub stale_services: Seq<Seq<char>>,
    pub escalation: Escalation,
    pub message: Seq<char>,
}

impl View for Report {
    type V = ReportView;

    open spec fn view(&self) -> ReportView {
        ReportView {
            ok: self.ok,
            igmp_ok: self.igmp_ok,
            daemon_alive: self.daemon_alive,
            announce_fresh: self.announce_fresh,
            missing_igmp_ifaces: texts(self.missing_igmp_ifaces@),
            stale_services: texts(self.stale_services@),
            escalation: self.escalation,
            message: self.message@,
        }
    }
}

impl Clone for Report {
    fn clone(&self) -> (r: Self)
        ensures
            r@ == self@,
    {
        Report {
            ok: self.ok,
            igmp_ok: self.igmp_ok,
            daemon_alive: self.daemon_alive,
            announce_fresh: self.announce_fresh,
            missing_igmp_ifaces: copy_list(&self.missing_igmp_ifaces),
            stale_services: copy_list(&self.stale_services),
            escalation: self.escalation,
            message: self.message.copied(),
        }
    }
}

/// The report before the first check.
pub open spec fn unchecked_report() -> ReportView {
    ReportView {
        ok: true,
        igmp_ok: true,
        daemon_alive: true,
        announce_fresh: true,
        missing_igmp_ifaces: Seq::empty(),
        stale_services: Seq::empty(),
        escalation: Escalation::Nothing,
        message: "not checked yet"@,
    }
}

impl Default for Report {
    /// The report before the first check.
    fn default() -> (r: Self)
        ensures
            r@ == unchecked_report(),
    {
        let r = Report {
            ok: true,
            igmp_ok: true,
            daemon_alive: true,
            announce_fresh: true,
            missing_igmp_ifaces: Vec::new(),
            stale_services: Vec::new(),
            escalation: Escalation::Nothing,
            message: "not checked yet".to_owned(),
        };
        proof {
            assert(texts(r.missing_igmp_ifaces@) =~= Seq::empty());
            assert(texts(r.stale_services@) =~= Seq::empty());
        }
        r
    }
}

/// The group that a token of `/proc/net/igmp` names: eight hexadecimal digits,
/// the first octet of the address last (`FB0000E0` is 224.0.0.251).
pub open spec fn group_in(token: Seq<char>) -> Option<Ipv4Addr> {
    let t = trimmed(token);
    match unsigned_to(t, 16, 0xffff_ffff) {
        Some(v) if encode_utf8(t).len() == 8 => Some(
            Ipv4Addr {
                bits: (v % 256 * 0x100_0000 + v / 256 % 256 * 0x1_0000 + v / 0x1_0000 % 256 * 256 + v
                    / 0x100_0000) as u32,
            },
        ),
        _ => None,
    }
}

fn parse_igmp_group(token: &str) -> (r: Option<Ipv4Addr>)
    ensures
        r == group_in(token@),
{
    let t = trim(token);
    if t.as_str().as_bytes().len() != 8 {
        return None;
    }
    match parse_unsigned(t.as_str(), 16, 0xffff_ffff) {
        None => None,
        Some(v) => {
            let bits: u64 = v % 256 * 0x100_0000 + v / 256 % 256 * 0x1_0000 + v / 0x1_0000 % 256
                * 256 + v / 0x100_0000;
            Some(Ipv4Addr { bits: bits as u32 })
        },
    }
}

/// The multicast groups that interfaces have joined.
pub type Groups = Map<Seq<char>, Seq<Ipv4Addr>>;

/// What has been read of `/proc/net/igmp`: the interface whose groups follow,
/// and the groups so far.
#[verifier::ext_equal]
pub struct IgmpState {
    pub current: Option<Seq<char>>,
    pub groups: Groups,
}

/// What is known after one more line. A line that starts with white space lists
/// a group of the current interface; any other names an interface.
pub open spec fn igmp_line(s: IgmpState, line: Seq<char>) -> IgmpState {
    let t = trimmed(line);
    let w = words(t);
    if t.len() == 0 || begins(t, "Idx"@) {
        s
    } else if !white(line[0]) {
        if w.len() < 2 {
            s
        } else {
            let name = strip_end(w[1], ':');
            IgmpState {
                current: Some(name),
                groups: if s.groups.contains_key(name) {
                    s.groups
                } else {
                    s.groups.insert(name, Seq::empty())
                },
            }
        }
    } else {
        match s.current {
            Some(name) if w.len() > 0 && group_in(w[0]) is Some => IgmpState {
                groups: s.groups.insert(
                    name,
                    groups_of(s.groups, name).push(group_in(w[0])->0),
                ),
                ..s
            },
            _ => s,
        }
    }
}

/// The groups of an interface, none where it is not known.
pub open spec fn groups_of(groups: Groups, iface: Seq<char>) -> Seq<Ipv4Addr> {
    if groups.contains_key(iface) {
        groups[iface]
    } else {
        Seq::empty()
    }
}

/// What is known after the lines of `/proc/net/igmp`.
pub open spec fn igmp_after(lines: Seq<Seq<char>>) -> IgmpState
    decreases lines.len(),
{
    if lines.len() == 0 {
        IgmpState { current: None, groups: Map::empty() }
    } else {
        igmp_line(igmp_after(lines.drop_last()), lines.last())
    }
}

/// White space is all that trimming takes: a text with something left has a
/// first character.
proof fn lemma_trimmed_nonempty(s: Seq<char>)
    ensures
        trimmed(s).len() > 0 ==> s.len() > 0,
{
}

/// Parse `/proc/net/igmp` into iface → joined groups.
///
/// Group addresses are stored little-endian hex (e.g. `FB0000E0` = 224.0.0.251).
pub fn parse_igmp(contents: &str) -> (r: TextMap<Vec<Ipv4Addr>>)
    ensures
        r@ == igmp_after(lines(contents@)).groups,
{
    let rows = split_lines(contents);
    let ghost all = texts(rows@);
    let mut out: TextMap<Vec<Ipv4Addr>> = TextMap::new();
    let mut current: Option<String> = None;
    let mut i: usize = 0;
    while i < rows.len()
        invariant
            i <= rows@.len(),
            all == texts(rows@),
            out@ == igmp_after(all.take(i as int)).groups,
            igmp_after(all.take(i as int)).current == crate::value::opt_view(current),
        decreases rows@.len() - i,
    {
        let line = rows[i].as_str();
        let t = trim(line);
        let ghost before = igmp_after(all.take(i as int));
        proof {
            assert(all.take(i + 1).drop_last() =~= all.take(i as int));
            assert(all.take(i + 1).last() == line@);
            lemma_plain_views();
        }
        if !t.as_str().is_empty() && !starts_with(t.as_str(), "Idx") {
            proof {
                lemma_trimmed_nonempty(line@);
            }
            let first = chars_of(line)[0];
            let cols = split_words(t.as_str());
            let ghost w = texts(cols@);
            assert(w.len() == cols@.len());
            if !is_white(first) {
                if cols.len() >= 2 {
                    assert(w[1] == cols@[1]@);
                    let name = trim_end_char(cols[1].as_str(), ':');
                    if !out.contains_key(name.as_str()) {
                        let fresh: Vec<Ipv4Addr> = Vec::new();
                        assert(fresh@ =~= Seq::<Ipv4Addr>::empty());
                        out.insert(name.copied(), fresh);
                    }
                    current = Some(name);
                }
            } else if cols.len() > 0 {
                assert(w[0] == cols@[0]@);
                match (&current, parse_igmp_group(cols[0].as_str())) {
                    (Some(name), Some(ip)) => {
                        let mut groups: Vec<Ipv4Addr> = match out.get(name.as_str()) {
                            Some(g) => copy_list(g),
                            None => Vec::new(),
                        };
                        assert(groups@ =~= groups_of(before.groups, name@));
                        groups.push(ip);
                        out.insert(name.copied(), groups);
                    },
                    _ => {},
                }
            }
        }
        i += 1;
    }
    proof {
        assert(all.take(i as int) =~= all);
    }
    out
}

/// Whether an interface has joined the mDNS group.
pub open spec fn joined_mdns(groups: Groups, iface: Seq<char>) -> bool {
    groups_of(groups, iface).contains(Ipv4Addr { bits: MDNS_GROUP_V4 })
}

/// The test for an address whose interface has not joined the mDNS group.
pub open spec fn unjoined(groups: Groups) -> spec_fn(Addr4View) -> bool {
    |a: Addr4View| !joined_mdns(groups, a.iface)
}

/// The interfaces of a list of addresses.
pub open spec fn ifaces_of(v4: Seq<Addr4View>) -> Seq<Seq<char>> {
    v4.map_values(|a: Addr4View| a.iface)
}

/// The interfaces that should have joined the mDNS group and have not, in
/// order and once each.
pub open spec fn missing_ifaces(groups: Groups, want: Seq<Addr4View>) -> Seq<Seq<char>> {
    sorted_distinct::<String>(ifaces_of(want.filter(unjoined(groups))))
}

/// Ifaces from `want` that do not currently have 224.0.0.251 joined.
pub fn missing_mdns_membership(igmp: &TextMap<Vec<Ipv4Addr>>, want: &[IfaceAddr4]) -> (r: Vec<
    String,
>)
    ensures
        texts(r@) == missing_ifaces(igmp@, views(want@)),
{
    let ghost all = views(want@);
    let ghost keep = unjoined(igmp@);
    let group = Ipv4Addr { bits: MDNS_GROUP_V4 };
    let mut missing: Vec<String> = Vec::new();
    let ghost mut kept: Seq<Addr4View> = Seq::empty();
    let mut i: usize = 0;
    proof {
        reveal(Seq::filter);
        assert(all.take(0).filter(keep) =~= kept);
        assert(texts(missing@) =~= ifaces_of(kept));
        lemma_plain_views();
    }
    while i < want.len()
        invariant
            i <= want@.len(),
            all == views(want@),
            keep == unjoined(igmp@),
            group == (Ipv4Addr { bits: MDNS_GROUP_V4 }),
            kept == all.take(i as int).filter(keep),
            texts(missing@) == ifaces_of(kept),
            forall|s: Seq<Ipv4Addr>| #[trigger] views(s) == s,
        decreases want@.len() - i,
    {
        let ghost x = all[i as int];
        proof {
            assert(all.take(i + 1) =~= all.take(i as int).push(x));
            lemma_filter_push(all.take(i as int), x, keep);
        }
        let name = &want[i].iface;
        let present = match igmp.get(name.as_str()) {
            Some(groups) => crate::value::list_has(groups, &group),
            None => false,
        };
        if !present {
            let ghost before = missing@;
            missing.push(name.copied());
            proof {
                assert(texts(missing@) =~= texts(before).push(x.iface));
                assert(ifaces_of(kept.push(x)) =~= ifaces_of(kept).push(x.iface));
                kept = kept.push(x);
            }
        }
        i += 1;
    }
    proof {
        assert(all.take(i as int) =~= all);
    }
    sort_distinct(&mut missing);
    missing
}

/// Whether a service was announced within the last `fresh_for`.
pub open spec fn fresh(
    name: Seq<char>,
    log: Map<Seq<char>, u64>,
    fresh_for: Duration,
    now: u64,
) -> bool {
    log.contains_key(name) && now - log[name] <= fresh_for.nanos
}

/// The test for a service that was not announced within the last `fresh_for`.
pub open spec fn stale(log: Map<Seq<char>, u64>, fresh_for: Duration, now: u64) -> spec_fn(
    Seq<char>,
) -> bool {
    |name: Seq<char>| !fresh(name, log, fresh_for, now)
}

/// Services whose last `Announce` event is older than `fresh_for`.
pub fn stale_announces(
    expected: &[String],
    log: &AnnounceLog,
    fresh_for: Duration,
    now: u64,
) -> (r: Vec<String>)
    ensures
        texts(r@) == stable_sorted::<String>(
            texts(expected@).filter(stale(log@, fresh_for, now)),
        ),
{
    let snap = log.snapshot();
    let ghost all = texts(expected@);
    let ghost keep = stale(log@, fresh_for, now);
    let mut out: Vec<String> = Vec::new();
    let mut i: usize = 0;
    proof {
        reveal(Seq::filter);
        assert(texts(out@) =~= all.take(0).filter(keep));
    }
    while i < expected.len()
        invariant
            i <= expected@.len(),
            all == texts(expected@),
            snap@ == log@,
            keep == stale(log@, fresh_for, now),
            texts(out@) == all.take(i as int).filter(keep),
        decreases expected@.len() - i,
    {
        let ghost x = all[i as int];
        proof {
            assert(all.take(i + 1) =~= all.take(i as int).push(x));
            lemma_filter_push(all.take(i as int), x, keep);
        }
        let is_fresh = match snap.get(expected[i].as_str()) {
            Some(at) => now <= *at || (now - *at) as u128 <= fresh_for.nanos,
            None => false,
        };
        if !is_fresh {
            let ghost before = out@;
            out.push(expected[i].copied());
            proof {
                assert(texts(out@) =~= texts(before).push(x));
            }
        }
        i += 1;
    }
    proof {
        assert(all.take(i as int) =~= all);
    }
    sort(&mut out);
    out
}

/// The services that a check counts as stale. Before the first announcement
/// was seen, none is.
pub open spec fn stale_now(
    expected: Seq<Seq<char>>,
    log: Map<Seq<char>, u64>,
    fresh_for: Duration,
    now: u64,
) -> Seq<Seq<char>> {
    if log.dom() == Set::<Seq<char>>::empty() {
        Seq::empty()
    } else {
        stable_sorted::<String>(expected.filter(stale(log, fresh_for, now)))
    }
}

/// What a check says of its findings.
pub open spec fn check_message(
    daemon_alive: bool,
    missing: Seq<Seq<char>>,
    stale: Seq<Seq<char>>,
) -> Seq<char> {
    let none = Seq::<Seq<char>>::empty();
    let a = if daemon_alive {
        none
    } else {
        seq!["mdns-sd thread not running"@]
    };
    let b = if missing.len() == 0 {
        none
    } else {
        seq!["224.0.0.251 not joined on "@ + joined(missing, ","@)]
    };
    let c = if stale.len() == 0 {
        none
    } else {
        seq!["stale announces: "@ + joined(stale, ","@)]
    };
    if daemon_alive && missing.len() == 0 && stale.len() == 0 {
        "ok"@
    } else {
        joined(a + b + c, "; "@)
    }
}

/// The report on given findings.
pub open spec fn report_on(
    daemon_alive: bool,
    missing: Seq<Seq<char>>,
    stale: Seq<Seq<char>>,
) -> ReportView {
    ReportView {
        ok: daemon_alive && missing.len() == 0 && stale.len() == 0,
        igmp_ok: missing.len() == 0,
        daemon_alive,
        announce_fresh: stale.len() == 0,
        missing_igmp_ifaces: missing,
        stale_services: stale,
        escalation: Escalation::Nothing,
        message: check_message(daemon_alive, missing, stale),
    }
}

/// The report on given findings.
fn make_report(daemon_alive: bool, missing: Vec<String>, stale: Vec<String>) -> (r: Report)
    ensures
        r@ == report_on(daemon_alive, texts(missing@), texts(stale@)),
{
    let ghost m = texts(missing@);
    let ghost s = texts(stale@);
    let igmp_ok = missing.len() == 0;
    let announce_fresh = stale.len() == 0;
    assert(m.len() == missing@.len() && s.len() == stale@.len());
    let ok = igmp_ok && daemon_alive && announce_fresh;
    let message = if ok {
        "ok".to_owned()
    } else {
        let mut parts: Vec<String> = Vec::new();
        if !daemon_alive {
            parts.push("mdns-sd thread not running".to_owned());
        }
        if !igmp_ok {
            let mut p = "224.0.0.251 not joined on ".to_owned();
            p.append(join(&missing, ",").as_str());
            parts.push(p);
        }
        if !announce_fresh {
            let mut p = "stale announces: ".to_owned();
            p.append(join(&stale, ",").as_str());
            parts.push(p);
        }
        proof {
            let none = Seq::<Seq<char>>::empty();
            let a = if daemon_alive {
                none
            } else {
                seq!["mdns-sd thread not running"@]
            };
            let b = if m.len() == 0 {
                none
            } else {
                seq!["224.0.0.251 not joined on "@ + joined(m, ","@)]
            };
            let c = if s.len() == 0 {
                none
            } else {
                seq!["stale announces: "@ + joined(s, ","@)]
            };
            assert(texts(parts@) =~= a + b + c);
        }
        join(&parts, "; ")
    };
    Report {
        ok,
        igmp_ok,
        daemon_alive,
        announce_fresh,
        missing_igmp_ifaces: missing,
        stale_services: stale,
        escalation: Escalation::Nothing,
        message,
    }
}

/// Run one check against the kernel's memberships, as `/proc/net/igmp` shows
/// them, and the state of the mDNS daemon.
pub fn evaluate(
    igmp_raw: &str,
    daemon_alive: bool,
    log: &AnnounceLog,
    want_v4: &[IfaceAddr4],
    expected_names: &[String],
    fresh_for: Duration,
    now: u64,
) -> (r: Report)
    ensures
        r@ == report_on(
            daemon_alive,
            missing_ifaces(igmp_after(lines(igmp_raw@)).groups, views(want_v4@)),
            stale_now(texts(expected_names@), log@, fresh_for, now),
        ),
{
    let igmp = parse_igmp(igmp_raw);
    let missing = missing_mdns_membership(&igmp, want_v4);
    let none = log.snapshot().len() == 0;
    proof {
        let l = log.snapshot_listing();
        if none {
            assert(log@.dom() =~= Set::<Seq<char>>::empty());
        } else {
            crate::textmap::lemma_place(l, 0);
            assert(log@.dom().contains(l[0].0));
        }
    }
    let stale = if none {
        let empty: Vec<String> = Vec::new();
        proof {
            assert(texts(empty@) =~= Seq::empty());
        }
        empty
    } else {
        stale_announces(expected_names, log, fresh_for, now)
    };
    make_report(daemon_alive, missing, stale)
}

/// How far to go after a check: one step further after each failure, and back
/// to the start after a success.
pub open spec fn escalated(from: Escalation, ok: bool) -> Escalation {
    if ok {
        Escalation::Nothing
    } else {
        match from {
            Escalation::Nothing => Escalation::Reannounce,
            Escalation::Reannounce => Escalation::RecreateDaemon,
            Escalation::RecreateDaemon => Escalation::RecreateDaemon,
        }
    }
}

/// Whether a failed check calls for announcing everything again.
pub open spec fn calls_reannounce(from: Escalation, ok: bool) -> bool {
    !ok && !(from is RecreateDaemon)
}

/// Whether a failed check calls for a new mDNS daemon.
pub open spec fn calls_recreate(from: Escalation, ok: bool) -> bool {
    !ok && from is Reannounce
}

/// How far to go after a check.
pub fn escalate(from: Escalation, ok: bool) -> (r: Escalation)
    ensures
        r == escalated(from, ok),
{
    if ok {
        Escalation::Nothing
    } else {
        match from {
            Escalation::Nothing => Escalation::Reannounce,
            Escalation::Reannounce => Escalation::RecreateDaemon,
            Escalation::RecreateDaemon => Escalation::RecreateDaemon,
        }
    }
}

/// A run of failures first announces again, then recreates the daemon, and then
/// does nothing more until a check succeeds.
pub proof fn failures_climb_the_ladder(from: Escalation)
    ensures
        ({
            let start = escalated(from, true);
            let once = escalated(start, false);
            let twice = escalated(once, false);
            let more = escalated(twice, false);
            &&& calls_reannounce(start, false) && !calls_recreate(start, false)
            &&& calls_reannounce(once, false) && calls_recreate(once, false)
            &&& !calls_reannounce(twice, false) && !calls_recreate(twice, false)
            &&& more == twice
        }),
{
}

/// A check is passed exactly if the daemon lives, no interface misses the group
/// and no service is stale; the message is `ok` then.
pub proof fn passed_means_sound(alive: bool, missing: Seq<Seq<char>>, stale: Seq<Seq<char>>)
    ensures
        ({
            let r = report_on(alive, missing, stale);
            &&& r.ok <==> r.igmp_ok && r.daemon_alive && r.announce_fresh
            &&& r.ok ==> r.message == "ok"@
        }),
{
}

/// An interface is reported as missing exactly if it has an address that is
/// wanted and has not joined the mDNS group; the report is in order.
pub proof fn missing_is_exact(groups: Groups, want: Seq<Addr4View>, iface: Seq<char>)
    ensures
        strictly_sorted::<String>(missing_ifaces(groups, want)),
        missing_ifaces(groups, want).contains(iface) <==> !joined_mdns(groups, iface) && exists|
            i: int,
        |
            0 <= i < want.len() && (#[trigger] want[i]).iface == iface,
{
    let keep = unjoined(groups);
    let kept = want.filter(keep);
    let names = ifaces_of(kept);
    lemma_sorted_distinct::<String>(names);
    if names.contains(iface) {
        let i = choose|i: int| 0 <= i < names.len() && names[i] == iface;
        assert(kept.contains(kept[i]));
        lemma_filter_has(want, keep, kept[i]);
        let k = choose|k: int| 0 <= k < want.len() && want[k] == kept[i];
        assert(want[k].iface == iface);
    }
    if !joined_mdns(groups, iface) && exists|i: int|
        0 <= i < want.len() && (#[trigger] want[i]).iface == iface {
        let i = choose|i: int| 0 <= i < want.len() && (#[trigger] want[i]).iface == iface;
        assert(want.contains(want[i]));
        lemma_filter_has(want, keep, want[i]);
        let k = choose|k: int| 0 <= k < kept.len() && kept[k] == want[i];
        assert(names[k] == iface);
    }
}

/// A service is told as stale exactly if its announcement is expected and none
/// was seen within the given time, once any announcement was seen at all.
pub proof fn stale_is_exact(
    expected: Seq<Seq<char>>,
    log: Map<Seq<char>, u64>,
    fresh_for: Duration,
    now: u64,
    name: Seq<char>,
)
    ensures
        stale_now(expected, log, fresh_for, now).contains(name) <==> {
            &&& exists|other: Seq<char>| #[trigger] log.contains_key(other)
            &&& expected.contains(name)
            &&& !(log.contains_key(name) && now - log[name] <= fresh_for.nanos)
        },
{
    let late = expected.filter(stale(log, fresh_for, now));
    lemma_stable_sorted::<String>(late);
    lemma_sorts_contains::<String>(stable_sorted::<String>(late), late, name);
    lemma_filter_has(expected, stale(log, fresh_for, now), name);
    if log.dom() == Set::<Seq<char>>::empty() {
        assert forall|other: Seq<char>| !(#[trigger] log.contains_key(other)) by {
            assert(!log.dom().contains(other));
        }
    } else if forall|other: Seq<char>| !(#[trigger] log.contains_key(other)) {
        assert(log.dom() =~= Set::<Seq<char>>::empty());
    }
}

/// The octets of a number put together from four of them.
proof fn lemma_octets(a: nat, b: nat, c: nat, d: nat)
    requires
        a < 256 && b < 256 && c < 256 && d < 256,
    ensures
        ({
            let n = a * 0x100_0000 + b * 0x1_0000 + c * 256 + d;
            &&& n <= 0xffff_ffff
            &&& n / 0x100_0000 == a && n / 0x1_0000 % 256 == b
            &&& n / 256 % 256 == c && n % 256 == d
        }),
{
    let n = a * 0x100_0000 + b * 0x1_0000 + c * 256 + d;
    assert(n / 256 == a * 0x1_0000 + b * 256 + c);
    assert(n / 0x1_0000 == a * 256 + b);
}

/// A group is told with its first octet last: eight hexadecimal digits stand for
/// the address whose octets are those of the number, turned around.
pub proof fn group_octets_are_turned_around(token: Seq<char>, v: u32)
    requires
        unsigned_to(trimmed(token), 16, 0xffff_ffff) == Some(v as nat),
        encode_utf8(trimmed(token)).len() == 8,
    ensures
        group_in(token) is Some,
        ({
            let bits = group_in(token)->0.bits;
            &&& bits / 0x100_0000 == v % 256
            &&& bits / 0x1_0000 % 256 == v / 256 % 256
            &&& bits / 256 % 256 == v / 0x1_0000 % 256
            &&& bits % 256 == v / 0x100_0000
        }),
{
    let n = v as nat;
    let (a, b, c, d) = (n % 256, n / 256 % 256, n / 0x1_0000 % 256, n / 0x100_0000);
    lemma_octets(a, b, c, d);
    let m = a * 0x100_0000 + b * 0x1_0000 + c * 256 + d;
    assert(group_in(token) == Some(Ipv4Addr { bits: m as u32 }));
}

/// A line that does not begin with white space names the interface whose groups
/// follow, in its second word without the colons behind it. It changes the
/// groups of none.
pub proof fn interface_lines_open_a_list(
    lines: Seq<Seq<char>>,
    line: Seq<char>,
    iface: Seq<char>,
)
    requires
        line.len() > 0,
        !white(line[0]),
        words(trimmed(line)).len() >= 2,
        trimmed(line).len() > 0,
        !begins(trimmed(line), "Idx"@),
    ensures
        ({
            let before = igmp_after(lines);
            let after = igmp_after(lines.push(line));
            let name = strip_end(words(trimmed(line))[1], ':');
            &&& after.current == Some(name)
            &&& after.groups.contains_key(name)
            &&& groups_of(after.groups, iface) == groups_of(before.groups, iface)
            &&& iface != name ==> after.groups.contains_key(iface)
                == before.groups.contains_key(iface)
        }),
{
    assert(lines.push(line).drop_last() =~= lines);
}

/// A line that begins with white space adds the group that its first word tells
/// to the current interface, and to no other. The heading, blank lines and words
/// that tell no group change nothing.
pub proof fn group_lines_add_a_group(
    lines: Seq<Seq<char>>,
    line: Seq<char>,
    iface: Seq<char>,
)
    requires
        line.len() > 0,
        white(line[0]),
        igmp_after(lines).current is Some,
    ensures
        ({
            let before = igmp_after(lines);
            let after = igmp_after(lines.push(line));
            let name = before.current->0;
            let t = trimmed(line);
            let told = t.len() > 0 && !begins(t, "Idx"@) && words(t).len() > 0 && group_in(
                words(t)[0],
            ) is Some;
            &&& after.current == before.current
            &&& told ==> groups_of(after.groups, name) == groups_of(before.groups, name).push(
                group_in(words(t)[0])->0,
            )
            &&& iface != name || !told ==> groups_of(after.groups, iface) == groups_of(
                before.groups,
                iface,
            )
        }),
{
    assert(lines.push(line).drop_last() =~= lines);
}

/// The group that an interface is to have joined is 224.0.0.251.
pub proof fn mdns_group_is_looked_for(groups: Groups, iface: Seq<char>)
    ensures
        joined_mdns(groups, iface) <==> groups.contains_key(iface) && groups[iface].contains(
            Ipv4Addr { bits: (224 * 0x100_0000 + 251) as u32 },
        ),
{
}

/// The message of a failed check tells each of its findings, and those alone.
pub proof fn message_tells_the_findings(missing: Seq<Seq<char>>, stale: Seq<Seq<char>>)
    ensures
        ({
            let none = Seq::<Seq<char>>::empty();
            let m = "224.0.0.251 not joined on "@ + joined(missing, ","@);
            let s = "stale announces: "@ + joined(stale, ","@);
            let dead = "mdns-sd thread not running"@;
            &&& report_on(true, none, none).message == "ok"@
            &&& report_on(false, none, none).message == dead
            &&& missing.len() > 0 ==> report_on(true, missing, none).message == m
            &&& stale.len() > 0 ==> report_on(true, none, stale).message == s
            &&& missing.len() > 0 && stale.len() > 0 ==> report_on(true, missing, stale).message
                == m + "; "@ + s
            &&& missing.len() > 0 && stale.len() > 0 ==> report_on(false, missing, stale).message
                == dead + "; "@ + m + "; "@ + s
            &&& missing.len() > 0 ==> report_on(false, missing, none).message == dead + "; "@ + m
            &&& stale.len() > 0 ==> report_on(false, none, stale).message == dead + "; "@ + s
            &&& report_on(true, missing, stale).missing_igmp_ifaces == missing
            &&& report_on(true, missing, stale).stale_services == stale
        }),
{
    let none = Seq::<Seq<char>>::empty();
    let m = "224.0.0.251 not joined on "@ + joined(missing, ","@);
    let s = "stale announces: "@ + joined(stale, ","@);
    let dead = "mdns-sd thread not running"@;
    assert(seq![dead] + none + none =~= seq![dead]);
    assert(none + seq![m] + none =~= seq![m]);
    assert(none + none + seq![s] =~= seq![s]);
    assert(none + seq![m] + seq![s] =~= seq![m, s]);
    assert(seq![dead] + seq![m] + seq![s] =~= seq![dead, m, s]);
    assert(seq![dead] + seq![m] + none =~= seq![dead, m]);
    assert(seq![dead] + none + seq![s] =~= seq![dead, s]);
    assert(seq![m, s].drop_last() =~= seq![m]);
    assert(seq![dead, m].drop_last() =~= seq![dead]);
    assert(seq![dead, s].drop_last() =~= seq![dead]);
    assert(seq![dead, m, s].drop_last() =~= seq![dead, m]);
    assert(joined(seq![dead, m], "; "@) == dead + "; "@ + m);
}

} // verus!
