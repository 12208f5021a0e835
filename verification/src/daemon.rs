//! The main loop as a state machine.
//!
//! [`Daemon::step`] says what to do next. The program does it and reports what
//! came of it to [`Daemon::advance`]. One round observes the world, keeps the
//! mDNS daemon running, works out what to advertise, brings the registrations
//! in line with it, checks itself now and then, and sleeps.

use vstd::prelude::*;

use crate::bigfred_watch::Program;
use crate::config::{non_blank, Config, ConfigView, EntryView, ServiceEntry};
use crate::legacy_unicast::{AnswerSet, AnswersView, MembershipRefresh};
use crate::mdns::{
    best4, best6, full_host, full_name, ipv4_addrs, ipv6_addrs, normalize_hostname, plain4, plain6,
    preferred_ipv4_ifaces, preferred_ipv6_addrs, AnnounceLog, IfaceInfo, MdnsPublisher,
};
use crate::microinit_watch::list_view;
use crate::order::lemma_sum_has;
use crate::run::{
    announce_burst_deadlines, applied, applied_all, apply_wake, burst_deadlines, by_name, commit,
    desired_map, entries_of, fill_dynamic, no_ads, or_none, plan, plan_is_exact, plan_reaches_desired, plan_reconcile, with_dynamic, ActionView, DesiredAds, DesiredView, ReconcileAction, Services, WakeReason,
};
use crate::schedule::{
    at_least, raise, sleep_for, sleep_ms, Announcer, AnnouncerView, Poller, PollerView,
};
use crate::selfcheck::{
    calls_reannounce, calls_recreate, escalate, escalated, evaluate, igmp_after, missing_ifaces,
    report_on, stale_now, unchecked_report, Escalation, Report, ReportView,
};
use crate::sys::{suspend_detected, SUSPEND_SKEW_THRESHOLD};
use crate::text::{lines, texts};
use crate::textmap::TextMap;
use crate::time::{after_ms, deadline, Duration, NANOS_PER_MS};
use crate::value::{copy_list, lemma_views_push, list_has, opt_view, views, Value};

verus! {

/// What the main loop does next.
#[derive(Debug, Clone, Copy, PartialEq, Eq, Structural)]
pub enum Step {
    /// Read the clocks, the configuration and the microinit feed.
    Observe,
    /// Start the mDNS daemon where none runs, or a new one in its place.
    Start { recreate: bool },
    /// The mDNS daemon did not start: sleep before the next round.
    Retry { ms: u64 },
    /// List the interfaces.
    Interfaces,
    /// Hand the changed answers to the responder.
    Answers { probe: bool },
    /// Ask loco-server for its programs.
    Probe,
    /// Show the desired advertisements to the control socket.
    Publish,
    /// Carry out the next action of the plan.
    Apply,
    /// Start and stop beacons.
    Beacons,
    /// Check memberships and announcements.
    Check,
    /// Show the report of the check to the control socket.
    Report,
    /// Sleep before the next round.
    Rest { ms: u64 },
}

/// What came of a step.
#[derive(Debug)]
pub enum Event {
    /// The clock, the skew of the clocks, the configuration, and a snapshot of
    /// microinit if one came in.
    Observed { now: u64, skew: Duration, config: Config, snapshot: Option<Vec<ServiceEntry>> },
    /// Whether an mDNS daemon runs.
    Started { ok: bool },
    /// Why the sleep ended, the skew of the clocks, and a snapshot of microinit
    /// if one came in.
    Woke { reason: WakeReason, skew: Duration, snapshot: Option<Vec<ServiceEntry>> },
    /// The interfaces, the name of the machine, and the clock.
    Interfaces { ifaces: Vec<IfaceInfo>, machine: String, now: u64 },
    /// The answers were handed over.
    Answered,
    /// The programs, unless loco-server did not give them, and the clock.
    Probed { programs: Option<Vec<Program>>, now: u64 },
    /// The advertisements were shown; the clock.
    Published { now: u64 },
    /// Whether the action was carried out; the clock.
    Applied { ok: bool, now: u64 },
    /// Whether the beacons were started; the clock.
    Beacons { ok: bool, now: u64 },
    /// What a check needs: the interfaces, `/proc/net/igmp`, whether the mDNS
    /// daemon lives, its announcements, and the clock.
    Checked {
        ifaces: Vec<IfaceInfo>,
        igmp: String,
        alive: bool,
        log: AnnounceLog,
        now: u64,
    },
    /// The report was shown; the clock.
    Reported { now: u64 },
}

/// The state of the main loop.
#[derive(Debug)]
pub struct Daemon {
    step: Step,
    cfg: Config,
    microinit: Option<Vec<ServiceEntry>>,
    poller: Poller,
    announcer: Announcer,
    recreate: bool,
    last_skew: Duration,
    answers: AnswerSet,
    desired: DesiredAds,
    last: DesiredAds,
    registered: TextMap<ServiceEntry>,
    todo: Vec<ReconcileAction>,
    next_check: u128,
    escalation: Escalation,
    report: Report,
}

/// What the state of the main loop stands for.
#[verifier::ext_equal]
pub struct DaemonView {
    pub step: Step,
    /// The configuration of this round.
    pub cfg: ConfigView,
    /// The last good snapshot of microinit.
    pub microinit: Option<Seq<EntryView>>,
    /// What loco-server last said.
    pub poller: PollerView,
    /// When to announce again.
    pub announcer: AnnouncerView,
    /// Whether the mDNS daemon is to be replaced.
    pub recreate: bool,
    /// The skew of the clocks when they last told of a suspend.
    pub last_skew: Duration,
    /// What the responder answers.
    pub answers: AnswersView,
    /// What is to be advertised.
    pub desired: DesiredView,
    /// What was last advertised without failure.
    pub last: DesiredView,
    /// What is registered with the mDNS daemon.
    pub registered: Services,
    /// The rest of the plan.
    pub todo: Seq<ActionView>,
    /// When to check again.
    pub next_check: u128,
    /// How far recovery has gone.
    pub escalation: Escalation,
    /// The last report.
    pub report: ReportView,
}

impl View for Daemon {
    type V = DaemonView;

    closed spec fn view(&self) -> DaemonView {
        DaemonView {
            step: self.step,
            cfg: self.cfg@,
            microinit: list_view(self.microinit),
            poller: self.poller@,
            announcer: self.announcer@,
            recreate: self.recreate,
            last_skew: self.last_skew,
            answers: self.answers@,
            desired: self.desired@,
            last: self.last@,
            registered: self.registered@,
            todo: views(self.todo@),
            next_check: self.next_check,
            escalation: self.escalation,
            report: self.report@,
        }
    }
}

/// Each value where it occurs first.
pub open spec fn first_of_each<A>(s: Seq<A>) -> Seq<A>
    decreases s.len(),
{
    if s.len() == 0 {
        Seq::empty()
    } else {
        let before = first_of_each(s.drop_last());
        if before.contains(s.last()) {
            before
        } else {
            before.push(s.last())
        }
    }
}

/// The hosts of services with the domain; the machine's name where a service
/// has none.
pub open spec fn hosts_of(services: Seq<EntryView>, machine: Seq<char>) -> Seq<Seq<char>> {
    services.map_values(
        |e: EntryView|
            full_host(
                match e.host {
                    Some(h) => h,
                    None => machine,
                },
            ),
    )
}

/// The hosts for which queries are answered.
pub open spec fn answered_hosts(
    services: Seq<EntryView>,
    microinit: Seq<EntryView>,
    dcc_host: Option<Seq<char>>,
    machine: Seq<char>,
) -> Seq<Seq<char>> {
    first_of_each(
        hosts_of(services + microinit, machine) + (match non_blank(dcc_host) {
            Some(h) => seq![full_host(h)],
            None => Seq::empty(),
        }),
    )
}

/// Adds a host unless it is there.
fn add_host(hosts: &mut Vec<String>, host: String)
    ensures
        texts(final(hosts)@) == (if texts(old(hosts)@).contains(host@) {
            texts(old(hosts)@)
        } else {
            texts(old(hosts)@).push(host@)
        }),
{
    if !list_has(hosts, &host) {
        let ghost before = hosts@;
        hosts.push(host);
        proof {
            lemma_views_push(before, host);
            assert(before.push(host) =~= hosts@);
        }
    }
}

/// Adds the hosts of services.
fn add_hosts(
    hosts: &mut Vec<String>,
    services: &[ServiceEntry],
    machine: &str,
    Ghost(done): Ghost<Seq<Seq<char>>>,
)
    requires
        texts(old(hosts)@) == first_of_each(done),
    ensures
        texts(final(hosts)@) == first_of_each(done + hosts_of(views(services@), machine@)),
{
    let ghost all = hosts_of(views(services@), machine@);
    let mut i: usize = 0;
    proof {
        assert(done + all.take(0) =~= done);
    }
    while i < services.len()
        invariant
            i <= services@.len(),
            all == hosts_of(views(services@), machine@),
            texts(hosts@) == first_of_each(done + all.take(i as int)),
        decreases services@.len() - i,
    {
        let host = match &services[i].host {
            Some(h) => normalize_hostname(h.as_str()),
            None => normalize_hostname(machine),
        };
        proof {
            let s = done + all.take(i + 1);
            assert(s.drop_last() =~= done + all.take(i as int));
            assert(s.last() == all[i as int]);
            assert(views(services@)[i as int] == services@[i as int]@);
            assert(all[i as int] == host@);
        }
        add_host(hosts, host);
        i += 1;
    }
    proof {
        assert(all.take(i as int) =~= all);
    }
}

/// The hosts for which queries are answered: those of the configured services,
/// of the services labeled for microinit and of the dcc-bus, once each.
pub fn answer_hosts(
    services: &[ServiceEntry],
    microinit: &[ServiceEntry],
    dcc_host: Option<String>,
    machine: &str,
) -> (r: Vec<String>)
    ensures
        texts(r@) == first_of_each(
            hosts_of(views(services@) + views(microinit@), machine@) + (match opt_view(dcc_host) {
                Some(h) => seq![full_host(h)],
                None => Seq::empty(),
            }),
        ),
{
    let mut hosts: Vec<String> = Vec::new();
    let ghost none = Seq::<Seq<char>>::empty();
    let ghost a = hosts_of(views(services@), machine@);
    let ghost b = hosts_of(views(microinit@), machine@);
    proof {
        assert(texts(hosts@) =~= first_of_each(none));
        assert(none + a =~= a);
        assert(a + b =~= hosts_of(views(services@) + views(microinit@), machine@));
    }
    add_hosts(&mut hosts, services, machine, Ghost(none));
    add_hosts(&mut hosts, microinit, machine, Ghost(a));
    match dcc_host {
        Some(h) => {
            proof {
                let s = (a + b) + seq![full_host(h@)];
                assert(s.drop_last() =~= a + b);
                assert(s.last() == full_host(h@));
            }
            add_host(&mut hosts, normalize_hostname(h.as_str()));
        },
        None => {
            proof {
                assert((a + b) + none =~= a + b);
            }
        },
    }
    hosts
}

impl DaemonView {
    /// Whether the clocks tell of a suspend.
    pub open spec fn suspended(self, skew: Duration) -> bool {
        skew.nanos - self.last_skew.nanos >= SUSPEND_SKEW_THRESHOLD
    }

    /// The state after a wake for the given reason.
    pub open spec fn woken(self, reason: WakeReason) -> DaemonView {
        DaemonView {
            announcer: AnnouncerView {
                force: self.announcer.force || reason is Suspend || (reason is IfaceChange
                    && !self.recreate),
                ..self.announcer
            },
            recreate: self.recreate || reason is Suspend,
            ..self
        }
    }

    /// The state after a look at the clocks.
    pub open spec fn looked(self, skew: Duration) -> DaemonView {
        if self.suspended(skew) {
            DaemonView { last_skew: skew, ..self }.woken(WakeReason::Suspend)
        } else {
            self
        }
    }

    /// The last good snapshot, given one that may have come in.
    pub open spec fn snapshot_or_last(self, snapshot: Option<Seq<EntryView>>) -> Option<
        Seq<EntryView>,
    > {
        match snapshot {
            Some(s) => Some(s),
            None => self.microinit,
        }
    }

    /// The state at the start of a round.
    pub open spec fn observed(
        self,
        now: u64,
        skew: Duration,
        cfg: ConfigView,
        snapshot: Option<Seq<EntryView>>,
    ) -> DaemonView {
        let s = self.looked(skew);
        DaemonView {
            step: Step::Start { recreate: s.recreate },
            cfg,
            microinit: if cfg.microinit.enabled {
                self.snapshot_or_last(snapshot)
            } else {
                None
            },
            announcer: s.announcer.ticked(now, cfg.announce.period_ms),
            ..s
        }
    }

    /// The state after an attempt to start the mDNS daemon. A new one has
    /// nothing registered.
    pub open spec fn started(self, ok: bool) -> DaemonView {
        if !ok {
            DaemonView { step: Step::Retry { ms: self.cfg.retry.mdns_ms }, ..self }
        } else {
            DaemonView {
                step: Step::Interfaces,
                registered: if self.recreate {
                    Map::empty()
                } else {
                    self.registered
                },
                recreate: false,
                ..self
            }
        }
    }

    /// What the responder is to answer.
    pub open spec fn answers_for(self, ifaces: Seq<IfaceInfo>, machine: Seq<char>) -> AnswersView {
        AnswersView {
            hosts: answered_hosts(
                self.cfg.services,
                or_none(self.microinit),
                self.cfg.dcc_bus.host,
                machine,
            ),
            v4: best4(ifaces, self.cfg.interfaces, self.cfg.skip_interfaces),
            v6: best6(ifaces, self.cfg.interfaces, self.cfg.skip_interfaces),
            skip_interfaces: self.cfg.skip_interfaces,
            interfaces: self.cfg.interfaces,
        }
    }

    /// What is to be advertised, without the dynamic part.
    pub open spec fn base_for(self, ifaces: Seq<IfaceInfo>) -> DesiredView {
        DesiredView {
            static_services: self.cfg.services,
            dynamic: Seq::empty(),
            beacons: Seq::empty(),
            ips: plain4(best4(ifaces, self.cfg.interfaces, self.cfg.skip_interfaces)),
            ips_v6: plain6(best6(ifaces, self.cfg.interfaces, self.cfg.skip_interfaces)),
            skip_interfaces: self.cfg.skip_interfaces,
            interfaces: self.cfg.interfaces,
        }
    }

    /// The state with the dynamic advertisements filled in.
    pub open spec fn filled(self) -> DaemonView {
        DaemonView {
            step: Step::Publish,
            desired: with_dynamic(
                self.desired,
                if self.cfg.bigfred.enabled {
                    or_none(self.poller.programs)
                } else {
                    Seq::empty()
                },
                or_none(self.microinit),
                self.cfg.dcc_bus.beacon,
                non_blank(self.cfg.dcc_bus.host),
            ),
            ..self
        }
    }

    /// The question to loco-server where it is due, else the advertisements.
    pub open spec fn to_probe(self, probe: bool) -> DaemonView {
        if probe {
            DaemonView { step: Step::Probe, ..self }
        } else {
            self.filled()
        }
    }

    /// The state after a look at the interfaces.
    pub open spec fn surveyed(
        self,
        ifaces: Seq<IfaceInfo>,
        machine: Seq<char>,
        now: u64,
    ) -> DaemonView {
        let answers = self.answers_for(ifaces, machine);
        let s = DaemonView { desired: self.base_for(ifaces), answers, ..self };
        let probe = self.cfg.bigfred.enabled && self.poller.due(now);
        if answers != self.answers {
            DaemonView { step: Step::Answers { probe }, ..s }
        } else {
            s.to_probe(probe)
        }
    }

    /// The state after a question to loco-server.
    pub open spec fn probed(
        self,
        programs: Option<Seq<crate::bigfred_watch::ProgramView>>,
        now: u64,
    ) -> DaemonView {
        DaemonView {
            poller: match programs {
                Some(p) => self.poller.reported(p, now, self.cfg.retry),
                None => self.poller.failed(now, self.cfg.retry),
            },
            ..self
        }.filled()
    }

    /// Whether the programs are withdrawn if loco-server does not answer now.
    pub open spec fn withdraws(self, now: u64) -> bool {
        self.step is Probe && self.poller.withdraws(now, self.cfg.retry)
    }

    /// What is to be registered.
    pub open spec fn target(self) -> Services {
        by_name(entries_of(self.desired))
    }

    /// Whether every registration is to be refreshed: on request, or because
    /// addresses or interface lists differ.
    pub open spec fn refresh_all(self) -> bool {
        self.announcer.force || self.desired.ips != self.last.ips || self.desired.ips_v6
            != self.last.ips_v6 || self.desired.interfaces != self.last.interfaces
            || self.desired.skip_interfaces != self.last.skip_interfaces
    }

    /// The check where it is due, else sleep.
    pub open spec fn to_check(self, now: u64) -> DaemonView {
        let s = DaemonView { todo: Seq::empty(), ..self };
        if now >= self.next_check {
            DaemonView { step: Step::Check, ..s }
        } else {
            s.to_rest(now)
        }
    }

    /// Sleep before the next round.
    pub open spec fn to_rest(self, now: u64) -> DaemonView {
        DaemonView {
            step: Step::Rest {
                ms: sleep_for(
                    self.cfg.retry,
                    self.cfg.bigfred.enabled,
                    self.poller.next_probe,
                    self.announcer,
                    self.next_check,
                    now,
                ) as u64,
            },
            ..self
        }
    }

    /// The next action of the plan, or the beacons.
    pub open spec fn to_apply(self) -> DaemonView {
        DaemonView {
            step: if self.todo.len() == 0 {
                Step::Beacons
            } else {
                Step::Apply
            },
            ..self
        }
    }

    /// The state once the advertisements are known: a plan where they differ
    /// from the last ones or an announcement is due.
    pub open spec fn published(self, now: u64) -> DaemonView {
        if self.desired != self.last || self.announcer.force {
            DaemonView {
                todo: plan(self.target(), self.registered, self.refresh_all()),
                ..self
            }.to_apply()
        } else {
            self.to_check(now)
        }
    }

    /// The state after an action of the plan. A registration that fails ends
    /// the plan; the last advertisements stay as they are, so that the next
    /// round tries again. Dropping a name counts as done in any case.
    pub open spec fn did(self, ok: bool, now: u64) -> DaemonView {
        if self.todo.len() == 0 {
            self
        } else if ok || self.todo[0] is Drop {
            DaemonView {
                registered: applied(self.registered, self.target(), self.todo[0]),
                todo: self.todo.skip(1),
                ..self
            }.to_apply()
        } else {
            self.to_check(now)
        }
    }

    /// The state after the beacons: what is desired is now advertised, and a
    /// change is followed by a burst of announcements.
    pub open spec fn settled(self, ok: bool, now: u64) -> DaemonView {
        if !ok {
            self.to_check(now)
        } else {
            DaemonView {
                announcer: AnnouncerView {
                    force: false,
                    bursts: if self.desired != self.last {
                        burst_deadlines(self.cfg.announce.burst_count, now)
                    } else {
                        self.announcer.bursts
                    },
                    ..self.announcer
                },
                last: self.desired,
                ..self
            }.to_check(now)
        }
    }

    /// How recent an announcement is to be.
    pub open spec fn fresh_for(self) -> Duration {
        Duration {
            nanos: (at_least(self.cfg.announce.period_ms, 1000) * NANOS_PER_MS
                + 15_000_000_000) as u128,
        }
    }

    /// The names that are expected to be announced.
    pub open spec fn expected(self) -> Seq<Seq<char>> {
        entries_of(self.last).map_values(|e: EntryView| full_name(e.name, e.type_))
    }

    /// The findings of a check.
    pub open spec fn findings(
        self,
        ifaces: Seq<IfaceInfo>,
        igmp: Seq<char>,
        alive: bool,
        log: Map<Seq<char>, u64>,
        now: u64,
    ) -> ReportView {
        report_on(
            alive,
            missing_ifaces(
                igmp_after(lines(igmp)).groups,
                best4(ifaces, self.last.interfaces, self.last.skip_interfaces),
            ),
            stale_now(self.expected(), log, self.fresh_for(), now),
        )
    }

    /// The state after a check with the given findings.
    pub open spec fn checked(self, findings: ReportView, now: u64) -> DaemonView {
        let escalation = escalated(self.escalation, findings.ok);
        DaemonView {
            step: Step::Report,
            announcer: AnnouncerView {
                force: self.announcer.force || calls_reannounce(self.escalation, findings.ok),
                ..self.announcer
            },
            recreate: self.recreate || calls_recreate(self.escalation, findings.ok),
            next_check: after_ms(now, at_least(self.cfg.selfcheck.period_ms, 1000)) as u128,
            escalation,
            report: ReportView { escalation, ..findings },
            ..self
        }
    }

    /// The state after a sleep.
    pub open spec fn slept(
        self,
        reason: WakeReason,
        skew: Duration,
        snapshot: Option<Seq<EntryView>>,
    ) -> DaemonView {
        DaemonView {
            step: Step::Observe,
            last_skew: if reason is Suspend {
                skew
            } else {
                self.last_skew
            },
            microinit: self.snapshot_or_last(snapshot),
            ..self
        }.woken(reason)
    }

    /// The state after an event. An event that does not answer the current
    /// step changes nothing.
    pub open spec fn next(self, event: Event) -> DaemonView {
        match (self.step, event) {
            (Step::Observe, Event::Observed { now, skew, config, snapshot }) => self.observed(
                now,
                skew,
                config@,
                list_view(snapshot),
            ),
            (Step::Start { recreate }, Event::Started { ok }) => self.started(ok),
            (Step::Retry { ms }, Event::Woke { reason, skew, snapshot }) => self.slept(
                reason,
                skew,
                list_view(snapshot),
            ),
            (Step::Interfaces, Event::Interfaces { ifaces, machine, now }) => self.surveyed(
                ifaces@,
                machine@,
                now,
            ),
            (Step::Answers { probe }, Event::Answered) => self.to_probe(probe),
            (Step::Probe, Event::Probed { programs, now }) => self.probed(
                match programs {
                    Some(p) => Some(views(p@)),
                    None => None,
                },
                now,
            ),
            (Step::Publish, Event::Published { now }) => self.published(now),
            (Step::Apply, Event::Applied { ok, now }) => self.did(ok, now),
            (Step::Beacons, Event::Beacons { ok, now }) => self.settled(ok, now),
            (Step::Check, Event::Checked { ifaces, igmp, alive, log, now }) => self.checked(
                self.findings(ifaces@, igmp@, alive, log@, now),
                now,
            ),
            (Step::Report, Event::Reported { now }) => self.to_rest(now),
            (Step::Rest { ms }, Event::Woke { reason, skew, snapshot }) => self.slept(
                reason,
                skew,
                list_view(snapshot),
            ),
            _ => self,
        }
    }

    /// Whether an event makes the responder recreate its sockets.
    pub open spec fn rebinds(self, event: Event) -> bool {
        match (self.step, event) {
            (Step::Observe, Event::Observed { skew, .. }) => self.suspended(skew),
            (Step::Retry { ms }, Event::Woke { reason, .. }) => reason is Suspend,
            (Step::Rest { ms }, Event::Woke { reason, .. }) => reason is Suspend,
            _ => false,
        }
    }
}

impl Daemon {
    /// The state at the start of the program.
    pub fn new(config: Config, now: u64, skew: Duration) -> (r: Self)
        ensures
            r@.step is Observe,
            r@.cfg == config@,
            r@.microinit is None,
            r@.poller == (PollerView {
                programs: None,
                stale_since: None,
                failures: 0,
                next_probe: now as u128,
            }),
            r@.announcer == (AnnouncerView {
                force: false,
                next_periodic: after_ms(now, config@.announce.period_ms) as u128,
                bursts: Seq::empty(),
            }),
            !r@.recreate,
            r@.last_skew == skew,
            r@.answers == (AnswersView {
                hosts: Seq::empty(),
                v4: Seq::empty(),
                v6: Seq::empty(),
                skip_interfaces: Seq::empty(),
                interfaces: Seq::empty(),
            }),
            r@.desired == no_ads(),
            r@.last == no_ads(),
            r@.registered == Map::<Seq<char>, EntryView>::empty(),
            r@.todo.len() == 0,
            r@.next_check == after_ms(now, config@.selfcheck.period_ms),
            r@.escalation is Nothing,
            r@.report == unchecked_report(),
            r@.sound(),
    {
        Daemon {
            step: Step::Observe,
            microinit: None,
            poller: Poller::new(now),
            announcer: Announcer {
                force: false,
                next_periodic: deadline(now, config.announce.period_ms),
                bursts: Vec::new(),
            },
            recreate: false,
            last_skew: skew,
            answers: AnswerSet::default(),
            desired: DesiredAds::default(),
            last: DesiredAds::default(),
            registered: TextMap::new(),
            todo: Vec::new(),
            next_check: deadline(now, config.selfcheck.period_ms),
            escalation: Escalation::Nothing,
            report: Report::default(),
            cfg: config,
        }
    }

    /// What to do next.
    pub fn step(&self) -> (r: Step)
        ensures
            r == self@.step,
    {
        self.step
    }

    /// The configuration of this round.
    pub fn config(&self) -> (r: &Config)
        ensures
            r@ == self@.cfg,
    {
        &self.cfg
    }

    /// What the responder answers.
    pub fn answers(&self) -> (r: &AnswerSet)
        ensures
            r@ == self@.answers,
    {
        &self.answers
    }

    /// What is to be advertised.
    pub fn desired(&self) -> (r: &DesiredAds)
        ensures
            r@ == self@.desired,
    {
        &self.desired
    }

    /// The report of the last check.
    pub fn report(&self) -> (r: &Report)
        ensures
            r@ == self@.report,
    {
        &self.report
    }

    /// Whether loco-server, when it does not answer now, has been silent for so
    /// long that its programs are withdrawn.
    pub fn withdraws(&self, now: u64) -> (r: bool)
        ensures
            r == self@.withdraws(now),
    {
        match self.step {
            Step::Probe => self.poller.withdraws(now, self.cfg.retry),
            _ => false,
        }
    }

    /// The skew of the clocks when they last told of a suspend.
    pub fn last_skew(&self) -> (r: Duration)
        ensures
            r == self@.last_skew,
    {
        self.last_skew
    }

    /// The next action of the plan.
    pub fn next_action(&self) -> (r: Option<&ReconcileAction>)
        ensures
            match r {
                Some(a) => self@.todo.len() > 0 && a@ == self@.todo[0],
                None => self@.todo.len() == 0,
            },
    {
        if self.todo.len() == 0 {
            None
        } else {
            proof {
                assert(views(self.todo@)[0] == self.todo@[0]@);
            }
            Some(&self.todo[0])
        }
    }

    /// The entry that is to be registered under a name.
    pub fn entry_for(&self, fullname: &str) -> (r: Option<ServiceEntry>)
        ensures
            match r {
                Some(e) => self@.target().contains_key(fullname@) && e@
                    == self@.target()[fullname@],
                None => !self@.target().contains_key(fullname@),
            },
    {
        match desired_map(&self.desired).get(fullname) {
            Some(e) => Some(e.copied()),
            None => None,
        }
    }

    /// Takes in a wake.
    fn wake(&mut self, reason: WakeReason, membership: &mut MembershipRefresh)
        ensures
            final(self)@ == old(self)@.woken(reason),
            final(membership).spec_epoch() == (if reason is Suspend {
                old(membership).spec_epoch().wrapping_add(1)
            } else {
                old(membership).spec_epoch()
            }),
            final(membership).rebind_wanted() == (old(membership).rebind_wanted() || reason
                is Suspend),
    {
        let mut force = self.announcer.force;
        let mut recreate = self.recreate;
        apply_wake(reason, membership, &mut force, &mut recreate);
        self.announcer.force = force;
        self.recreate = recreate;
    }

    fn go_rest(&mut self, now: u64)
        ensures
            final(self)@ == old(self)@.to_rest(now),
    {
        let ms: u64 = sleep_ms(
            self.cfg.retry,
            self.cfg.bigfred.enabled,
            self.poller.next_probe,
            &self.announcer,
            self.next_check,
            now,
        );
        self.step = Step::Rest { ms };
    }

    fn go_check(&mut self, now: u64)
        ensures
            final(self)@ == old(self)@.to_check(now),
    {
        self.todo = Vec::new();
        proof {
            assert(views(self.todo@) =~= Seq::empty());
        }
        if now as u128 >= self.next_check {
            self.step = Step::Check;
        } else {
            self.go_rest(now);
        }
    }

    fn go_apply(&mut self)
        ensures
            final(self)@ == old(self)@.to_apply(),
    {
        assert(views(self.todo@).len() == self.todo@.len());
        self.step = if self.todo.len() == 0 {
            Step::Beacons
        } else {
            Step::Apply
        };
    }

    /// Fills in the dynamic advertisements.
    fn fill(&mut self)
        ensures
            final(self)@ == old(self)@.filled(),
    {
        let none_programs: Vec<Program> = Vec::new();
        let none_entries: Vec<ServiceEntry> = Vec::new();
        proof {
            assert(views(none_programs@) =~= Seq::empty());
            assert(views(none_entries@) =~= Seq::empty());
        }
        let host = self.cfg.dcc_bus.advertised_host();
        let host_text = match &host {
            Some(h) => Some(h.as_str()),
            None => None,
        };
        let programs: &[Program] = match &self.poller.programs {
            Some(p) if self.cfg.bigfred.enabled => p,
            _ => &none_programs,
        };
        let entries: &[ServiceEntry] = match &self.microinit {
            Some(m) => m,
            None => &none_entries,
        };
        fill_dynamic(&mut self.desired, programs, entries, self.cfg.dcc_bus.beacon, host_text);
        self.step = Step::Publish;
    }

    fn go_probe(&mut self, probe: bool)
        ensures
            final(self)@ == old(self)@.to_probe(probe),
    {
        if probe {
            self.step = Step::Probe;
        } else {
            self.fill();
        }
    }

    /// Takes in the interfaces.
    fn survey(&mut self, ifaces: &[IfaceInfo], machine: &str, now: u64)
        ensures
            final(self)@ == old(self)@.surveyed(ifaces@, machine@, now),
    {
        let none_entries: Vec<ServiceEntry> = Vec::new();
        proof {
            assert(views(none_entries@) =~= Seq::empty());
            crate::value::lemma_plain_views();
        }
        let v4 = preferred_ipv4_ifaces(ifaces, &self.cfg.interfaces, &self.cfg.skip_interfaces);
        let v6 = preferred_ipv6_addrs(ifaces, &self.cfg.interfaces, &self.cfg.skip_interfaces);
        let entries: &[ServiceEntry] = match &self.microinit {
            Some(m) => m,
            None => &none_entries,
        };
        let hosts = answer_hosts(
            &self.cfg.services,
            entries,
            self.cfg.dcc_bus.advertised_host(),
            machine,
        );
        let ips = ipv4_addrs(&v4);
        let ips_v6 = ipv6_addrs(&v6);
        let desired = DesiredAds {
            static_services: copy_list(&self.cfg.services),
            dynamic: Vec::new(),
            beacons: Vec::new(),
            ips,
            ips_v6,
            skip_interfaces: copy_list(&self.cfg.skip_interfaces),
            interfaces: copy_list(&self.cfg.interfaces),
        };
        let answers = AnswerSet {
            hosts,
            v4,
            v6,
            skip_interfaces: copy_list(&self.cfg.skip_interfaces),
            interfaces: copy_list(&self.cfg.interfaces),
        };
        proof {
            assert(desired@ =~= old(self)@.base_for(ifaces@)) by {
                assert(views(desired.ips_v6@) =~= desired.ips_v6@);
            }
            assert(answers@ =~= old(self)@.answers_for(ifaces@, machine@));
        }
        let probe = self.cfg.bigfred.enabled && self.poller.due(now);
        let changed = !answers.same(&self.answers);
        self.desired = desired;
        self.answers = answers;
        if changed {
            self.step = Step::Answers { probe };
        } else {
            self.go_probe(probe);
        }
    }

    /// Works out a plan where there is something to do.
    fn publish(&mut self, now: u64)
        ensures
            final(self)@ == old(self)@.published(now),
    {
        if !self.desired.same(&self.last) || self.announcer.force {
            let all = self.announcer.force || !crate::value::same_lists(
                &self.desired.ips,
                &self.last.ips,
            ) || !crate::value::same_lists(&self.desired.ips_v6, &self.last.ips_v6)
                || !crate::value::same_lists(&self.desired.interfaces, &self.last.interfaces)
                || !crate::value::same_lists(
                &self.desired.skip_interfaces,
                &self.last.skip_interfaces,
            );
            let target = desired_map(&self.desired);
            self.todo = plan_reconcile(&target, &self.registered, all);
            self.go_apply();
        } else {
            self.go_check(now);
        }
    }

    /// Takes in what came of an action.
    fn act(&mut self, ok: bool, now: u64)
        ensures
            final(self)@ == old(self)@.did(ok, now),
    {
        if self.todo.len() == 0 {
            return;
        }
        proof {
            assert(views(self.todo@)[0] == self.todo@[0]@);
        }
        let drops = match &self.todo[0] {
            ReconcileAction::Drop(_) => true,
            _ => false,
        };
        if ok || drops {
            let target = desired_map(&self.desired);
            let ghost before = self.todo@;
            let action = self.todo.remove(0);
            commit(&mut self.registered, &target, &action);
            proof {
                assert(views(self.todo@) =~= views(before).skip(1));
            }
            self.go_apply();
        } else {
            self.go_check(now);
        }
    }

    /// Takes in what came of the beacons.
    fn settle(&mut self, ok: bool, now: u64)
        ensures
            final(self)@ == old(self)@.settled(ok, now),
    {
        if ok {
            if !self.desired.same(&self.last) {
                self.announcer.bursts = announce_burst_deadlines(
                    self.cfg.announce.burst_count,
                    now,
                );
            }
            self.last = self.desired.copied();
            self.announcer.force = false;
        }
        self.go_check(now);
    }

    /// The names that are expected to be announced.
    fn expected_names(&self) -> (r: Vec<String>)
        ensures
            texts(r@) == self@.expected(),
    {
        let ghost all = entries_of(self.last@);
        let ghost f = |e: EntryView| full_name(e.name, e.type_);
        let ghost n = self.last.static_services@.len();
        let mut out: Vec<String> = Vec::new();
        let mut i: usize = 0;
        while i < self.last.static_services.len()
            invariant
                i == out@.len() <= n == self.last.static_services@.len(),
                all == entries_of(self.last@),
                f == (|e: EntryView| full_name(e.name, e.type_)),
                forall|k: int| 0 <= k < out@.len() ==> (#[trigger] texts(out@)[k]) == f(all[k]),
            decreases n - i,
        {
            let e = &self.last.static_services[i];
            let ghost before = out@;
            out.push(MdnsPublisher::fullname(e.name.as_str(), e.type_.as_str()));
            proof {
                assert(all[i as int] == e@);
                assert(texts(out@) =~= texts(before).push(f(all[i as int])));
            }
            i += 1;
        }
        let mut j: usize = 0;
        while j < self.last.dynamic.len()
            invariant
                j <= self.last.dynamic@.len(),
                out@.len() == n + j,
                n == self.last.static_services@.len(),
                all == entries_of(self.last@),
                f == (|e: EntryView| full_name(e.name, e.type_)),
                forall|k: int| 0 <= k < out@.len() ==> (#[trigger] texts(out@)[k]) == f(all[k]),
            decreases self.last.dynamic@.len() - j,
        {
            let e = &self.last.dynamic[j].entry;
            let ghost before = out@;
            out.push(MdnsPublisher::fullname(e.name.as_str(), e.type_.as_str()));
            proof {
                assert(all[n + j] == e@);
                assert(texts(out@) =~= texts(before).push(f(all[n + j])));
            }
            j += 1;
        }
        proof {
            assert(texts(out@) =~= all.map_values(f));
        }
        out
    }

    /// Runs a check on what was found.
    fn check(
        &mut self,
        ifaces: &[IfaceInfo],
        igmp: &str,
        alive: bool,
        log: &AnnounceLog,
        now: u64,
    )
        ensures
            final(self)@ == old(self)@.checked(
                old(self)@.findings(ifaces@, igmp@, alive, log@, now),
                now,
            ),
    {
        let expected = self.expected_names();
        let want = preferred_ipv4_ifaces(
            ifaces,
            &self.last.interfaces,
            &self.last.skip_interfaces,
        );
        let period: u64 = raise(self.cfg.announce.period_ms, 1000);
        let fresh_for = Duration { nanos: period as u128 * NANOS_PER_MS + 15_000_000_000 };
        let mut report = evaluate(igmp, alive, log, &want, &expected, fresh_for, now);
        if !report.ok {
            match self.escalation {
                Escalation::Nothing => {
                    self.announcer.force = true;
                },
                Escalation::Reannounce => {
                    self.recreate = true;
                    self.announcer.force = true;
                },
                Escalation::RecreateDaemon => {},
            }
        }
        self.escalation = escalate(self.escalation, report.ok);
        report.escalation = self.escalation;
        self.report = report;
        self.next_check = deadline(now, raise(self.cfg.selfcheck.period_ms, 1000));
        self.step = Step::Report;
    }

    /// Takes in what came of the current step.
    pub fn advance(&mut self, event: Event, membership: &mut MembershipRefresh)
        ensures
            final(self)@ == old(self)@.next(event),
            final(membership).spec_epoch() == (if old(self)@.rebinds(event) {
                old(membership).spec_epoch().wrapping_add(1)
            } else {
                old(membership).spec_epoch()
            }),
            final(membership).rebind_wanted() == (old(membership).rebind_wanted() || old(
                self,
            )@.rebinds(event)),
    {
        match (self.step, event) {
            (Step::Observe, Event::Observed { now, skew, config, snapshot }) => {
                if suspend_detected(self.last_skew, skew) {
                    self.last_skew = skew;
                    self.wake(WakeReason::Suspend, membership);
                }
                if snapshot.is_some() {
                    self.microinit = snapshot;
                }
                if !config.microinit.enabled {
                    self.microinit = None;
                }
                self.announcer.tick(now, config.announce.period_ms);
                self.cfg = config;
                self.step = Step::Start { recreate: self.recreate };
            },
            (Step::Start { recreate }, Event::Started { ok }) => {
                if ok {
                    if self.recreate {
                        self.registered = TextMap::new();
                        self.recreate = false;
                    }
                    self.step = Step::Interfaces;
                } else {
                    self.step = Step::Retry { ms: self.cfg.retry.mdns_ms };
                }
            },
            (Step::Retry { ms }, Event::Woke { reason, skew, snapshot }) => {
                self.rouse(reason, skew, snapshot, membership);
            },
            (Step::Rest { ms }, Event::Woke { reason, skew, snapshot }) => {
                self.rouse(reason, skew, snapshot, membership);
            },
            (Step::Interfaces, Event::Interfaces { ifaces, machine, now }) => {
                self.survey(&ifaces, machine.as_str(), now);
            },
            (Step::Answers { probe }, Event::Answered) => {
                self.go_probe(probe);
            },
            (Step::Probe, Event::Probed { programs, now }) => {
                match programs {
                    Some(p) => {
                        self.poller.report(p, now, self.cfg.retry);
                    },
                    None => {
                        self.poller.fail(now, self.cfg.retry);
                    },
                }
                self.fill();
            },
            (Step::Publish, Event::Published { now }) => {
                self.publish(now);
            },
            (Step::Apply, Event::Applied { ok, now }) => {
                self.act(ok, now);
            },
            (Step::Beacons, Event::Beacons { ok, now }) => {
                self.settle(ok, now);
            },
            (Step::Check, Event::Checked { ifaces, igmp, alive, log, now }) => {
                self.check(&ifaces, igmp.as_str(), alive, &log, now);
            },
            (Step::Report, Event::Reported { now }) => {
                self.go_rest(now);
            },
            _ => {},
        }
    }

    /// Takes in the end of a sleep.
    fn rouse(
        &mut self,
        reason: WakeReason,
        skew: Duration,
        snapshot: Option<Vec<ServiceEntry>>,
        membership: &mut MembershipRefresh,
    )
        ensures
            final(self)@ == old(self)@.slept(reason, skew, list_view(snapshot)),
            final(membership).spec_epoch() == (if reason is Suspend {
                old(membership).spec_epoch().wrapping_add(1)
            } else {
                old(membership).spec_epoch()
            }),
            final(membership).rebind_wanted() == (old(membership).rebind_wanted() || reason
                is Suspend),
    {
        match reason {
            WakeReason::Suspend => {
                self.last_skew = skew;
            },
            _ => {},
        }
        if snapshot.is_some() {
            self.microinit = snapshot;
        }
        self.step = Step::Observe;
        self.wake(reason, membership);
    }
}

impl DaemonView {
    /// What holds in every round: there are finitely many registrations, and
    /// while a plan is carried out, the rest of it leads to what is desired.
    pub open spec fn sound(self) -> bool {
        &&& self.registered.dom().finite()
        &&& self.step is Apply || self.step is Beacons ==> applied_all(
            self.registered,
            self.target(),
            self.todo,
        ) == self.target()
        &&& self.step is Beacons ==> self.todo.len() == 0
        &&& self.step is Apply ==> self.todo.len() > 0
    }
}

/// Every event keeps what holds in every round.
pub proof fn daemon_stays_sound(s: DaemonView, event: Event)
    requires
        s.sound(),
    ensures
        s.next(event).sound(),
{
    crate::run::lemma_by_name_finite(entries_of(s.desired));
    match (s.step, event) {
        (Step::Publish, Event::Published { now }) => {
            plan_reaches_desired(s.target(), s.registered, s.refresh_all());
            let todo = plan(s.target(), s.registered, s.refresh_all());
            if todo.len() == 0 {
                assert(applied_all(s.registered, s.target(), todo) == s.registered);
            }
        },
        (Step::Apply, Event::Applied { ok, now }) => {
            crate::run::lemma_applied_first(s.registered, s.target(), s.todo);
        },
        _ => {},
    }
}

/// Once the beacons are done, what is registered is exactly what was last
/// advertised.
pub proof fn settled_is_registered(s: DaemonView, now: u64)
    requires
        s.sound(),
        s.step is Beacons,
    ensures
        ({
            let t = s.next(Event::Beacons { ok: true, now });
            &&& t.last == s.desired
            &&& t.registered == by_name(entries_of(t.last))
            &&& !t.announcer.force
        }),
{
}

/// A registration that fails is tried again: nothing counts as advertised, and
/// with the same wishes the next round plans anew.
pub proof fn failed_registration_is_retried(s: DaemonView, now: u64, later: u64)
    requires
        s.sound(),
        s.step is Apply,
        !(s.todo[0] is Drop),
        s.desired != s.last || s.announcer.force,
    ensures
        ({
            let t = s.next(Event::Applied { ok: false, now });
            let again = DaemonView { step: Step::Publish, ..t }.next(
                Event::Published { now: later },
            );
            &&& t.last == s.last
            &&& t.registered == s.registered
            &&& again.step is Apply || again.step is Beacons
        }),
{
}

/// A resume after suspend replaces the mDNS daemon, forgets its registrations
/// and announces everything again.
pub proof fn resume_starts_afresh(s: DaemonView, event: Event)
    requires
        s.rebinds(event),
    ensures
        ({
            let t = s.next(event);
            &&& t.recreate
            &&& t.announcer.force
            &&& s.step is Observe ==> t.step == Step::Start { recreate: true } && t.next(
                Event::Started { ok: true },
            ).registered == Map::<Seq<char>, EntryView>::empty()
        }),
{
}

/// The last good snapshot of microinit stays in use while none comes in, unless
/// the configuration turns microinit off.
#[verifier::spinoff_prover]
#[verifier::rlimit(40)]
pub proof fn snapshot_outlives_silence(
    s: DaemonView,
    now: u64,
    skew: Duration,
    config: Config,
    reason: WakeReason,
)
    ensures
        s.step is Observe && config@.microinit.enabled ==> s.next(
            Event::Observed { now, skew, config, snapshot: None },
        ).microinit == s.microinit,
        s.step is Observe && !config@.microinit.enabled ==> s.next(
            Event::Observed { now, skew, config, snapshot: None },
        ).microinit is None,
        s.step is Rest || s.step is Retry ==> s.next(
            Event::Woke { reason, skew, snapshot: None },
        ).microinit == s.microinit,
{
}

/// A question that is not answered withdraws the programs exactly if the main
/// loop says so; otherwise they stay.
pub proof fn withdrawal_is_told(s: DaemonView, now: u64)
    requires
        s.step is Probe,
        s.poller.programs is Some,
    ensures
        s.next(Event::Probed { programs: None, now }).poller.programs == (if s.withdraws(now) {
            None
        } else {
            s.poller.programs
        }),
{
}

/// What occurs in a list is kept where it occurs first, once each.
proof fn lemma_first_of_each<A>(s: Seq<A>, x: A)
    ensures
        first_of_each(s).contains(x) <==> s.contains(x),
        first_of_each(s).no_duplicates(),
    decreases s.len(),
{
    if s.len() > 0 {
        let d = s.drop_last();
        let l = s.last();
        lemma_first_of_each(d, x);
        lemma_first_of_each(d, l);
        lemma_sum_has(d, seq![l], x);
        assert(d + seq![l] =~= s);
        assert(seq![l].contains(x) <==> l == x) by {
            assert(seq![l][0] == l);
        }
        let before = first_of_each(d);
        if !before.contains(l) {
            lemma_sum_has(before, seq![l], x);
            assert(before + seq![l] =~= before.push(l));
        }
    }
}

/// The responder answers for a host exactly if a configured service or a
/// service labeled for microinit has it, if one of them has none and it is the
/// machine's, or if it is that of the dcc-bus; for each host once.
pub proof fn answered_hosts_are_exact(
    services: Seq<EntryView>,
    microinit: Seq<EntryView>,
    dcc_host: Option<Seq<char>>,
    machine: Seq<char>,
    x: Seq<char>,
)
    ensures
        ({
            let hosts = answered_hosts(services, microinit, dcc_host, machine);
            &&& hosts.no_duplicates()
            &&& hosts.contains(x) <==> {
                ||| exists|i: int|
                    0 <= i < services.len() && x == full_host(
                        match (#[trigger] services[i]).host {
                            Some(h) => h,
                            None => machine,
                        },
                    )
                ||| exists|i: int|
                    0 <= i < microinit.len() && x == full_host(
                        match (#[trigger] microinit[i]).host {
                            Some(h) => h,
                            None => machine,
                        },
                    )
                ||| non_blank(dcc_host) is Some && x == full_host(non_blank(dcc_host)->0)
            }
        }),
{
    let all = services + microinit;
    let named = hosts_of(all, machine);
    let extra = match non_blank(dcc_host) {
        Some(h) => seq![full_host(h)],
        None => Seq::empty(),
    };
    lemma_first_of_each(named + extra, x);
    lemma_sum_has(named, extra, x);
    if non_blank(dcc_host) is Some {
        assert(extra[0] == full_host(non_blank(dcc_host)->0));
    }
    if named.contains(x) {
        let i = choose|i: int| 0 <= i < named.len() && named[i] == x;
        if i < services.len() {
            assert(services[i] == all[i]);
        } else {
            assert(microinit[i - services.len()] == all[i]);
        }
    }
    if exists|i: int|
        0 <= i < services.len() && x == full_host(
            match (#[trigger] services[i]).host {
                Some(h) => h,
                None => machine,
            },
        ) {
        let i = choose|i: int|
            0 <= i < services.len() && x == full_host(
                match (#[trigger] services[i]).host {
                    Some(h) => h,
                    None => machine,
                },
            );
        assert(all[i] == services[i]);
        assert(named[i] == x);
    }
    if exists|i: int|
        0 <= i < microinit.len() && x == full_host(
            match (#[trigger] microinit[i]).host {
                Some(h) => h,
                None => machine,
            },
        ) {
        let i = choose|i: int|
            0 <= i < microinit.len() && x == full_host(
                match (#[trigger] microinit[i]).host {
                    Some(h) => h,
                    None => machine,
                },
            );
        assert(all[services.len() + i] == microinit[i]);
        assert(named[services.len() + i] == x);
    }
}

/// After a look at the interfaces the responder answers for the hosts of the
/// services in use. It gets the answers exactly if they have changed, and
/// loco-server is asked exactly if that is turned on and due.
pub proof fn survey_decides_what_follows(
    s: DaemonView,
    ifaces: Vec<IfaceInfo>,
    machine: String,
    now: u64,
)
    requires
        s.step is Interfaces,
    ensures
        ({
            let t = s.next(Event::Interfaces { ifaces, machine, now });
            let asks = s.cfg.bigfred.enabled && now >= s.poller.next_probe;
            &&& t.answers.hosts == answered_hosts(
                s.cfg.services,
                or_none(s.microinit),
                s.cfg.dcc_bus.host,
                machine@,
            )
            &&& t.step is Answers <==> t.answers != s.answers
            &&& t.step is Answers && asks ==> t.next(Event::Answered).step is Probe
            &&& t.step is Answers && !asks ==> t.next(Event::Answered).step is Publish
            &&& !(t.step is Answers) && asks ==> t.step is Probe
            &&& !(t.step is Answers) && !asks ==> t.step is Publish
        }),
{
}

/// Once the advertisements are known, there is a plan exactly if they differ
/// from the last ones or an announcement is due. It adds what is not
/// registered, drops what is not desired, and refreshes what differs; it
/// refreshes everything if an announcement is due or if addresses or interface
/// lists differ.
pub proof fn plan_follows_the_wishes(s: DaemonView, now: u64, k: Seq<char>)
    requires
        s.sound(),
        s.step is Publish,
    ensures
        ({
            let t = s.next(Event::Published { now });
            let planned = s.desired != s.last || s.announcer.force;
            let everything = s.announcer.force || s.desired.ips != s.last.ips
                || s.desired.ips_v6 != s.last.ips_v6 || s.desired.interfaces != s.last.interfaces
                || s.desired.skip_interfaces != s.last.skip_interfaces;
            let wanted = s.target();
            let held = s.registered;
            &&& t.registered == s.registered && t.desired == s.desired && t.last == s.last
            &&& planned ==> {
                &&& t.step is Apply || t.step is Beacons
                &&& t.todo.contains(ActionView::Add(k)) <==> wanted.contains_key(k)
                    && !held.contains_key(k)
                &&& t.todo.contains(ActionView::Drop(k)) <==> held.contains_key(k)
                    && !wanted.contains_key(k)
                &&& t.todo.contains(ActionView::Refresh(k)) <==> wanted.contains_key(k)
                    && held.contains_key(k) && (everything || held[k] != wanted[k])
            }
            &&& !planned ==> t.todo.len() == 0 && (t.step is Check || t.step is Rest)
        }),
{
    crate::run::lemma_by_name_finite(entries_of(s.desired));
    plan_is_exact(s.target(), s.registered, s.refresh_all(), k);
}

/// Actions are carried out one after the other. A success moves on by one and
/// changes what is registered by that action; a failure to register leaves what
/// is registered, forgets the rest of the plan, and keeps what was last
/// advertised. A name that cannot be dropped counts as dropped.
pub proof fn actions_are_carried_out_in_turn(s: DaemonView, ok: bool, now: u64)
    requires
        s.step is Apply,
        s.todo.len() > 0,
    ensures
        ({
            let t = s.next(Event::Applied { ok, now });
            let done = ok || s.todo[0] is Drop;
            &&& t.last == s.last && t.desired == s.desired && t.announcer == s.announcer
            &&& done ==> {
                &&& t.registered == applied(s.registered, s.target(), s.todo[0])
                &&& t.todo.len() == s.todo.len() - 1
                &&& forall|i: int| 0 <= i < t.todo.len() ==> (#[trigger] t.todo[i]) == s.todo[i + 1]
                &&& t.step is Apply <==> t.todo.len() > 0
                &&& t.step is Beacons <==> t.todo.len() == 0
            }
            &&& !done ==> {
                &&& t.registered == s.registered
                &&& t.todo.len() == 0
                &&& t.step is Check <==> now >= s.next_check
                &&& t.step is Rest <==> now < s.next_check
            }
        }),
{
}

/// Once beacons run, what is desired counts as advertised and no announcement
/// is due any more. Where it differs from what was advertised before, a burst
/// of announcements follows; otherwise the deadlines stay. A failure of the
/// beacons changes none of this.
pub proof fn change_is_followed_by_a_burst(s: DaemonView, ok: bool, now: u64)
    requires
        s.step is Beacons,
    ensures
        ({
            let t = s.next(Event::Beacons { ok, now });
            &&& ok ==> t.last == s.desired && !t.announcer.force
            &&& ok && s.desired != s.last ==> t.announcer.bursts == burst_deadlines(
                s.cfg.announce.burst_count,
                now,
            )
            &&& ok && s.desired == s.last ==> t.announcer.bursts == s.announcer.bursts
            &&& !ok ==> t.last == s.last && t.announcer == s.announcer
            &&& t.announcer.next_periodic == s.announcer.next_periodic
            &&& t.registered == s.registered
            &&& t.step is Check <==> now >= s.next_check
            &&& t.step is Rest <==> now < s.next_check
        }),
{
}

/// A look at the clock makes an announcement due if one was due, if the period
/// or a deadline of a burst has passed, or after a suspend; for no other
/// reason. Deadlines that have passed are forgotten, and no others.
pub proof fn clock_makes_announcements_due(
    s: DaemonView,
    now: u64,
    skew: Duration,
    config: Config,
    snapshot: Option<Vec<ServiceEntry>>,
    deadline: u128,
)
    requires
        s.step is Observe,
    ensures
        ({
            let t = s.next(Event::Observed { now, skew, config, snapshot });
            let slept = skew.nanos - s.last_skew.nanos >= 2_000_000_000;
            let period = if config@.announce.period_ms < 1000 {
                1000
            } else {
                config@.announce.period_ms
            };
            &&& t.announcer.force <==> {
                ||| s.announcer.force
                ||| slept
                ||| now >= s.announcer.next_periodic
                ||| exists|i: int|
                    0 <= i < s.announcer.bursts.len() && #[trigger] s.announcer.bursts[i] <= now
            }
            &&& t.announcer.bursts.contains(deadline) <==> s.announcer.bursts.contains(deadline)
                && deadline > now
            &&& now >= s.announcer.next_periodic ==> t.announcer.next_periodic == now + period
                * 1_000_000
            &&& now < s.announcer.next_periodic ==> t.announcer.next_periodic
                == s.announcer.next_periodic
            &&& t.recreate <==> s.recreate || slept
            &&& t.last_skew == (if slept {
                skew
            } else {
                s.last_skew
            })
            &&& s.rebinds(Event::Observed { now, skew, config, snapshot }) <==> slept
        }),
{
    crate::order::lemma_filter_has(
        s.announcer.bursts,
        crate::schedule::ahead(now),
        deadline,
    );
}

/// A daemon that starts leads to a look at the interfaces, and one that is new
/// has nothing registered. One that does not start is tried again after the
/// configured time, with everything else as it was.
pub proof fn start_is_retried(s: DaemonView)
    requires
        s.step is Start,
    ensures
        ({
            let t = s.next(Event::Started { ok: true });
            let u = s.next(Event::Started { ok: false });
            &&& t.step is Interfaces && !t.recreate
            &&& s.recreate ==> forall|k: Seq<char>| !(#[trigger] t.registered.contains_key(k))
            &&& !s.recreate ==> t.registered == s.registered
            &&& u == (DaemonView { step: Step::Retry { ms: s.cfg.retry.mdns_ms }, ..s })
        }),
{
}

/// Waking up asks for a new daemon and a new announcement after a suspend, for
/// a new announcement after a change of an interface unless a new daemon is on
/// its way, and for nothing otherwise. A snapshot that came in is kept.
pub proof fn wake_reasons_differ(
    s: DaemonView,
    reason: WakeReason,
    skew: Duration,
    snapshot: Option<Vec<ServiceEntry>>,
)
    requires
        s.step is Rest || s.step is Retry,
    ensures
        ({
            let event = Event::Woke { reason, skew, snapshot };
            let t = s.next(event);
            &&& t.step is Observe
            &&& t.recreate == (s.recreate || reason is Suspend)
            &&& t.announcer.force == (s.announcer.force || reason is Suspend || (reason
                is IfaceChange && !s.recreate))
            &&& t.announcer.bursts == s.announcer.bursts
            &&& t.announcer.next_periodic == s.announcer.next_periodic
            &&& reason is Suspend ==> t.last_skew == skew
            &&& !(reason is Suspend) ==> t.last_skew == s.last_skew
            &&& snapshot is Some ==> t.microinit == Some(views(snapshot->0@))
            &&& snapshot is None ==> t.microinit == s.microinit
            &&& s.rebinds(event) <==> reason is Suspend
        }),
{
}

/// A failed check announces everything again and, the second time in a row,
/// asks for a new daemon; a check that is passed does neither. The next check
/// is a period away, and the report tells how far recovery has gone.
pub proof fn failed_checks_lead_to_recovery(
    s: DaemonView,
    ifaces: Vec<IfaceInfo>,
    igmp: String,
    alive: bool,
    log: AnnounceLog,
    now: u64,
)
    requires
        s.step is Check,
    ensures
        ({
            let t = s.next(Event::Checked { ifaces, igmp, alive, log, now });
            let period = if s.cfg.selfcheck.period_ms < 1000 {
                1000
            } else {
                s.cfg.selfcheck.period_ms
            };
            &&& t.step is Report
            &&& t.next_check == now + period * 1_000_000
            &&& t.report.escalation == t.escalation
            &&& t.report.ok ==> t.escalation is Nothing && t.recreate == s.recreate
                && t.announcer == s.announcer
            &&& !t.report.ok && s.escalation is Nothing ==> t.escalation is Reannounce
                && t.announcer.force && t.recreate == s.recreate
            &&& !t.report.ok && s.escalation is Reannounce ==> t.escalation is RecreateDaemon
                && t.announcer.force && t.recreate
            &&& !t.report.ok && s.escalation is RecreateDaemon ==> t.escalation is RecreateDaemon
                && t.announcer == s.announcer && t.recreate == s.recreate
            &&& t.report.daemon_alive == alive
            &&& t.report.missing_igmp_ifaces == missing_ifaces(
                igmp_after(lines(igmp@)).groups,
                best4(ifaces@, s.last.interfaces, s.last.skip_interfaces),
            )
            &&& t.last == s.last && t.registered == s.registered && t.desired == s.desired
            &&& t.next(Event::Reported { now }).step is Rest
        }),
{
}

/// A check expects an announcement of everything that was last advertised, not
/// older than the period, of at least a second, and fifteen seconds more.
pub proof fn check_expects_recent_announcements(
    s: DaemonView,
    ifaces: Vec<IfaceInfo>,
    igmp: String,
    alive: bool,
    log: AnnounceLog,
    now: u64,
    name: Seq<char>,
)
    requires
        s.step is Check,
    ensures
        ({
            let t = s.next(Event::Checked { ifaces, igmp, alive, log, now });
            let period = if s.cfg.announce.period_ms < 1000 {
                1000
            } else {
                s.cfg.announce.period_ms
            };
            &&& t.report.stale_services.contains(name) <==> {
                &&& exists|other: Seq<char>| #[trigger] log@.contains_key(other)
                &&& !(log@.contains_key(name) && now - log@[name] <= period * 1_000_000
                    + 15_000_000_000)
                &&& exists|i: int|
                    0 <= i < entries_of(s.last).len() && full_name(
                        (#[trigger] entries_of(s.last)[i]).name,
                        entries_of(s.last)[i].type_,
                    ) == name
            }
            &&& t.report.ok <==> alive && t.report.missing_igmp_ifaces.len() == 0
                && t.report.stale_services.len() == 0
        }),
{
    let expected = s.expected();
    crate::selfcheck::stale_is_exact(expected, log@, s.fresh_for(), now, name);
    if expected.contains(name) {
        let i = choose|i: int| 0 <= i < expected.len() && expected[i] == name;
        assert(full_name(entries_of(s.last)[i].name, entries_of(s.last)[i].type_) == name);
    }
    if exists|i: int|
        0 <= i < entries_of(s.last).len() && full_name(
            (#[trigger] entries_of(s.last)[i]).name,
            entries_of(s.last)[i].type_,
        ) == name {
        let i = choose|i: int|
            0 <= i < entries_of(s.last).len() && full_name(
                (#[trigger] entries_of(s.last)[i]).name,
                entries_of(s.last)[i].type_,
            ) == name;
        assert(expected[i] == name);
    }
}

/// Each kind of event concerns its own part of the state: the configuration
/// comes from observations alone, the programs from loco-server alone, the
/// answers from a look at the interfaces alone, what was last advertised from
/// the beacons alone, what is registered from a start or from an action alone,
/// and the report from a check alone.
#[verifier::spinoff_prover]
#[verifier::rlimit(60)]
pub proof fn events_mind_their_own_part(s: DaemonView, event: Event)
    ensures
        ({
            let t = s.next(event);
            &&& !(event is Observed) ==> t.cfg == s.cfg
            &&& !(event is Observed) && !(event is Woke) ==> t.microinit == s.microinit
                && t.last_skew == s.last_skew
            &&& !(event is Probed) ==> t.poller == s.poller
            &&& !(event is Interfaces) ==> t.answers == s.answers
            &&& !(event is Beacons) ==> t.last == s.last
            &&& !(event is Started) && !(event is Applied) ==> t.registered == s.registered
            &&& !(event is Checked) ==> t.report == s.report && t.escalation == s.escalation
                && t.next_check == s.next_check
            &&& !(event is Interfaces) && !(event is Answered) && !(event is Probed) ==> t.desired
                == s.desired
            &&& !(event is Started) ==> (s.recreate ==> t.recreate)
        }),
{
}

/// An event that does not answer the current step changes nothing.
pub proof fn stray_events_are_ignored(s: DaemonView, event: Event)
    ensures
        event is Observed && !(s.step is Observe) ==> s.next(event) == s,
        event is Started && !(s.step is Start) ==> s.next(event) == s,
        event is Woke && !(s.step is Rest) && !(s.step is Retry) ==> s.next(event) == s,
        event is Interfaces && !(s.step is Interfaces) ==> s.next(event) == s,
        event is Answered && !(s.step is Answers) ==> s.next(event) == s,
        event is Probed && !(s.step is Probe) ==> s.next(event) == s,
        event is Published && !(s.step is Publish) ==> s.next(event) == s,
        event is Applied && !(s.step is Apply) ==> s.next(event) == s,
        event is Beacons && !(s.step is Beacons) ==> s.next(event) == s,
        event is Checked && !(s.step is Check) ==> s.next(event) == s,
        event is Reported && !(s.step is Report) ==> s.next(event) == s,
{
}

} // verus!
