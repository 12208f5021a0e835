//! What holds of whole rounds of the main loop.

use vstd::prelude::*;

use crate::bigfred_watch::Program;
use crate::config::{non_blank, Config, EntryView, ServiceEntry};
use crate::daemon::{DaemonView, Event};
use crate::mdns::{best4, best6, full_name, IfaceInfo};
use crate::microinit_watch::list_view;
use crate::run::{
    dynamic_is_exact, entries_of, every_entry_has_its_name, or_none, plan_is_exact, station_ads,
    station_beacons, with_dynamic, ActionView, BeaconWant, DesiredView, DynView,
};
use crate::time::Duration;
use crate::value::views;

verus! {

/// The state after an observation and a successful start of the mDNS daemon.
#[verifier::opaque]
pub open spec fn opening(s: DaemonView, observed: Event) -> DaemonView {
    s.next(observed).next(Event::Started { ok: true })
}

/// The state when the interfaces have been listed, the responder has its
/// answers, and loco-server has been asked where that is due.
#[verifier::opaque]
pub open spec fn survey(s: DaemonView, surveyed: Event, probed: Event) -> DaemonView {
    let a = s.next(surveyed);
    let b = if a.step is Answers {
        a.next(Event::Answered)
    } else {
        a
    };
    if b.step is Probe {
        b.next(probed)
    } else {
        b
    }
}

/// The state when the advertisements of a round are known, for a round in which
/// the mDNS daemon runs: the world is observed, the interfaces are listed, the
/// responder gets its answers, and loco-server is asked where that is due.
pub open spec fn round(
    s: DaemonView,
    observed: Event,
    surveyed: Event,
    probed: Event,
) -> DaemonView {
    survey(opening(s, observed), surveyed, probed)
}

/// The state after an observation and a start.
#[verifier::spinoff_prover]
proof fn lemma_opening(
    s: DaemonView,
    now: u64,
    skew: Duration,
    config: Config,
    snapshot: Option<Vec<ServiceEntry>>,
)
    requires
        s.step is Observe,
    ensures
        opening(s, Event::Observed { now, skew, config, snapshot }) == s.observed(
            now,
            skew,
            config@,
            list_view(snapshot),
        ).started(true),
{
    reveal(opening);
}

/// The state after a look at the interfaces and what follows from it.
#[verifier::spinoff_prover]
#[verifier::rlimit(40)]
proof fn lemma_survey(
    s: DaemonView,
    ifaces: Vec<IfaceInfo>,
    machine: String,
    later: u64,
    programs: Option<Vec<Program>>,
    probed_at: u64,
)
    requires
        s.step is Interfaces,
    ensures
        ({
            let t = survey(
                s,
                Event::Interfaces { ifaces, machine, now: later },
                Event::Probed { programs, now: probed_at },
            );
            let asked = s.cfg.bigfred.enabled && later >= s.poller.next_probe;
            &&& t.step is Publish
            &&& t.cfg == s.cfg
            &&& t.last == s.last
            &&& t.registered == s.registered
            &&& t.answers == s.answers_for(ifaces@, machine@)
            &&& t.microinit == s.microinit
            &&& t.poller == (if asked {
                match programs {
                    Some(p) => s.poller.reported(views(p@), probed_at, s.cfg.retry),
                    None => s.poller.failed(probed_at, s.cfg.retry),
                }
            } else {
                s.poller
            })
            &&& t.desired == with_dynamic(
                s.base_for(ifaces@),
                if s.cfg.bigfred.enabled {
                    or_none(t.poller.programs)
                } else {
                    Seq::empty()
                },
                or_none(t.microinit),
                s.cfg.dcc_bus.beacon,
                non_blank(s.cfg.dcc_bus.host),
            )
        }),
{
    reveal(survey);
    let a = s.next(Event::Interfaces { ifaces, machine, now: later });
    let probe = s.cfg.bigfred.enabled && later >= s.poller.next_probe;
    assert(a == s.surveyed(ifaces@, machine@, later));
    if a.step is Answers {
        assert(a.next(Event::Answered) == a.to_probe(probe));
    }
}

/// The state when the advertisements of a round are known.
proof fn lemma_round(
    s: DaemonView,
    now: u64,
    skew: Duration,
    config: Config,
    snapshot: Option<Vec<ServiceEntry>>,
    ifaces: Vec<IfaceInfo>,
    machine: String,
    later: u64,
    programs: Option<Vec<Program>>,
    probed_at: u64,
)
    requires
        s.step is Observe,
    ensures
        ({
            let t = round(
                s,
                Event::Observed { now, skew, config, snapshot },
                Event::Interfaces { ifaces, machine, now: later },
                Event::Probed { programs, now: probed_at },
            );
            let a = s.observed(now, skew, config@, list_view(snapshot));
            let asked = config@.bigfred.enabled && later >= s.poller.next_probe;
            &&& t.step is Publish
            &&& t.cfg == config@
            &&& t.last == s.last
            &&& t.registered == a.started(true).registered
            &&& t.answers == a.answers_for(ifaces@, machine@)
            &&& t.microinit == a.microinit
            &&& t.poller == (if asked {
                match programs {
                    Some(p) => s.poller.reported(views(p@), probed_at, config@.retry),
                    None => s.poller.failed(probed_at, config@.retry),
                }
            } else {
                s.poller
            })
            &&& t.desired == with_dynamic(
                a.base_for(ifaces@),
                if config@.bigfred.enabled {
                    or_none(t.poller.programs)
                } else {
                    Seq::empty()
                },
                or_none(t.microinit),
                config@.dcc_bus.beacon,
                non_blank(config@.dcc_bus.host),
            )
        }),
{
    lemma_opening(s, now, skew, config, snapshot);
    let a = s.observed(now, skew, config@, list_view(snapshot));
    let b = a.started(true);
    assert(b.answers_for(ifaces@, machine@) == a.answers_for(ifaces@, machine@));
    assert(b.base_for(ifaces@) == a.base_for(ifaces@));
    lemma_survey(b, ifaces, machine, later, programs, probed_at);
}

/// A change of the configuration takes effect with the next observation: from
/// then on the observed configuration is in use, and the round advertises its
/// services, with its interface lists.
pub proof fn round_uses_observed_config(
    s: DaemonView,
    now: u64,
    skew: Duration,
    config: Config,
    snapshot: Option<Vec<ServiceEntry>>,
    ifaces: Vec<IfaceInfo>,
    machine: String,
    later: u64,
    programs: Option<Vec<Program>>,
    probed_at: u64,
)
    requires
        s.step is Observe,
    ensures
        ({
            let observed = Event::Observed { now, skew, config, snapshot };
            let t = round(
                s,
                observed,
                Event::Interfaces { ifaces, machine, now: later },
                Event::Probed { programs, now: probed_at },
            );
            &&& s.next(observed).step is Start
            &&& s.next(observed).cfg == config@
            &&& t.step is Publish
            &&& t.cfg == config@
            &&& t.desired.static_services == config@.services
            &&& t.desired.interfaces == config@.interfaces
            &&& t.desired.skip_interfaces == config@.skip_interfaces
            &&& t.last == s.last
            &&& t.registered == s.registered || s.next(observed).recreate
                && t.registered.dom() == Set::<Seq<char>>::empty()
        }),
{
    assert(Map::<Seq<char>, EntryView>::empty().dom() =~= Set::<Seq<char>>::empty());
    lemma_round(
        s,
        now,
        skew,
        config,
        snapshot,
        ifaces,
        machine,
        later,
        programs,
        probed_at,
    );
}

/// Every configured service gets registered: once the configured services
/// differ from those last advertised, the round plans to add each of them that
/// is not registered yet, and to drop each registered name that nothing has
/// any more.
pub proof fn configured_services_are_planned(
    s: DaemonView,
    now: u64,
    skew: Duration,
    config: Config,
    snapshot: Option<Vec<ServiceEntry>>,
    ifaces: Vec<IfaceInfo>,
    machine: String,
    later: u64,
    programs: Option<Vec<Program>>,
    probed_at: u64,
    published_at: u64,
    i: int,
)
    requires
        s.sound(),
        s.step is Observe,
        config@.services != s.last.static_services,
        0 <= i < config@.services.len(),
    ensures
        ({
            let t = round(
                s,
                Event::Observed { now, skew, config, snapshot },
                Event::Interfaces { ifaces, machine, now: later },
                Event::Probed { programs, now: probed_at },
            );
            let u = t.next(Event::Published { now: published_at });
            let k = full_name(config@.services[i].name, config@.services[i].type_);
            &&& t.registered.contains_key(k) || u.todo.contains(ActionView::Add(k))
            &&& !u.todo.contains(ActionView::Drop(k))
            &&& u.target().contains_key(k)
        }),
{
    lemma_round(
        s,
        now,
        skew,
        config,
        snapshot,
        ifaces,
        machine,
        later,
        programs,
        probed_at,
    );
    let t = round(
        s,
        Event::Observed { now, skew, config, snapshot },
        Event::Interfaces { ifaces, machine, now: later },
        Event::Probed { programs, now: probed_at },
    );
    let k = full_name(config@.services[i].name, config@.services[i].type_);
    every_entry_has_its_name(t.desired, k, i);
    assert(t.desired.static_services[i] == config@.services[i]);
    crate::run::lemma_by_name_finite(entries_of(t.desired));
    assert(t.registered.dom().finite());
    assert(t.next(Event::Published { now: published_at }) == t.published(published_at));
    plan_is_exact(t.target(), t.registered, t.refresh_all(), k);
}

/// The dynamic advertisements of a round are those of the programs that
/// loco-server last reported, unless the configuration turns that off, and
/// those of the last snapshot of microinit, unless the configuration turns that
/// off. A snapshot or a report that comes in replaces the one before.
pub proof fn round_advertises_its_sources(
    s: DaemonView,
    now: u64,
    skew: Duration,
    config: Config,
    snapshot: Option<Vec<ServiceEntry>>,
    ifaces: Vec<IfaceInfo>,
    machine: String,
    later: u64,
    programs: Option<Vec<Program>>,
    probed_at: u64,
    d: DynView,
    b: BeaconWant,
)
    requires
        s.step is Observe,
    ensures
        ({
            let t = round(
                s,
                Event::Observed { now, skew, config, snapshot },
                Event::Interfaces { ifaces, machine, now: later },
                Event::Probed { programs, now: probed_at },
            );
            let host = non_blank(config@.dcc_bus.host);
            let asked = config@.bigfred.enabled && later >= s.poller.next_probe;
            let told = t.poller.programs;
            &&& t.desired.dynamic.contains(d) <==> {
                ||| config@.bigfred.enabled && told is Some && exists|i: int|
                    0 <= i < told->0.len() && station_ads(
                        #[trigger] told->0[i],
                        host,
                    ).contains(d)
                ||| config@.microinit.enabled && t.microinit is Some && d.source is Microinit
                    && t.microinit->0.contains(d.entry)
            }
            &&& t.desired.beacons.contains(b) <==> config@.bigfred.enabled && told is Some
                && exists|i: int|
                0 <= i < told->0.len() && station_beacons(
                    #[trigger] told->0[i],
                    config@.dcc_bus.beacon,
                ).contains(b)
            &&& config@.microinit.enabled && snapshot is Some ==> t.microinit == Some(
                views(snapshot->0@),
            )
            &&& config@.microinit.enabled && snapshot is None ==> t.microinit == s.microinit
            &&& !config@.microinit.enabled ==> t.microinit is None
            &&& asked && programs is Some ==> told == Some(views(programs->0@))
            &&& !asked ==> t.poller == s.poller
        }),
{
    let t = round(
        s,
        Event::Observed { now, skew, config, snapshot },
        Event::Interfaces { ifaces, machine, now: later },
        Event::Probed { programs, now: probed_at },
    );
    lemma_round(
        s,
        now,
        skew,
        config,
        snapshot,
        ifaces,
        machine,
        later,
        programs,
        probed_at,
    );
    let base = s.observed(now, skew, config@, list_view(snapshot)).base_for(ifaces@);
    let told = if config@.bigfred.enabled {
        or_none(t.poller.programs)
    } else {
        Seq::empty()
    };
    dynamic_is_exact(
        base,
        told,
        or_none(t.microinit),
        config@.dcc_bus.beacon,
        non_blank(config@.dcc_bus.host),
        d,
        b,
    );
}

/// The addresses of a round are those of the interfaces that the configuration
/// lets be used, both for what is advertised and for what the responder
/// answers.
pub proof fn round_uses_current_addresses(
    s: DaemonView,
    now: u64,
    skew: Duration,
    config: Config,
    snapshot: Option<Vec<ServiceEntry>>,
    ifaces: Vec<IfaceInfo>,
    machine: String,
    later: u64,
    programs: Option<Vec<Program>>,
    probed_at: u64,
    i: int,
)
    requires
        s.step is Observe,
    ensures
        ({
            let t = round(
                s,
                Event::Observed { now, skew, config, snapshot },
                Event::Interfaces { ifaces, machine, now: later },
                Event::Probed { programs, now: probed_at },
            );
            let v4 = best4(ifaces@, config@.interfaces, config@.skip_interfaces);
            let v6 = best6(ifaces@, config@.interfaces, config@.skip_interfaces);
            &&& t.answers.v4 == v4 && t.answers.v6 == v6
            &&& t.answers.interfaces == config@.interfaces
            &&& t.answers.skip_interfaces == config@.skip_interfaces
            &&& t.desired.ips.len() == v4.len() && t.desired.ips_v6.len() == v6.len()
            &&& 0 <= i < v4.len() ==> t.desired.ips[i] == v4[i].addr
            &&& 0 <= i < v6.len() ==> t.desired.ips_v6[i] == v6[i].addr
        }),
{
    lemma_round(
        s,
        now,
        skew,
        config,
        snapshot,
        ifaces,
        machine,
        later,
        programs,
        probed_at,
    );
}

} // verus!
