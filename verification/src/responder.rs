//! The decisions of the thread that answers legacy queries.
//!
//! The thread asks [`Responder::action`] what to do, does it, and reports what
//! came of it to [`Responder::advance`].

use vstd::prelude::*;

use crate::legacy_unicast::{
    memberships_need_refresh, should_replace_memberships, AnswerSet, AnswersView, MDNS_PORT,
};
use crate::net::Ipv4Addr;
use crate::order::{sort_distinct, sorted_distinct};
use crate::value::{copy_list, lemma_plain_views, opt_view, same_option, views, Value};

verus! {

/// How long to wait when no socket could be bound, in milliseconds.
pub const BIND_RETRY_MS: u64 = 3000;

/// How long to wait when nothing was received, in milliseconds.
pub const IDLE_MS: u64 = 50;

/// Where the responder stands in its round.
#[derive(Debug, Clone, Copy, PartialEq, Eq, Structural)]
pub enum Phase {
    /// Look whether the sockets are to be recreated.
    Check,
    /// Open the IPv4 socket.
    BindV4,
    /// Open the IPv6 socket.
    BindV6,
    /// Read the answers and the refresh epoch.
    Answers,
    /// List the usable interfaces.
    Index { force: bool },
    /// Leave and join multicast groups; on request even where nothing changed.
    Join { force: bool },
    /// Receive on the IPv4 socket.
    ReceiveV4,
    /// Receive on the IPv6 socket.
    ReceiveV6,
    /// Wait.
    Rest { ms: u64 },
}

/// What came of a receive.
#[derive(Debug, Clone, Copy, PartialEq, Eq, Structural)]
pub enum Received {
    Packet,
    Nothing,
    Failed,
}

/// What came of an action.
#[derive(Debug)]
pub enum Event {
    /// Whether a rebind was requested, and the refresh epoch.
    Checked { rebind: bool, epoch: u64 },
    /// Whether a socket was opened.
    Bound { ok: bool },
    /// The current answers (none where they cannot be read), and the refresh
    /// epoch.
    Answers { answers: Option<AnswerSet>, epoch: u64 },
    /// The indexes of the usable interfaces.
    Indexes { indexes: Vec<u32> },
    /// Which of the joins succeeded, in the order in which they were asked for.
    Joined { v4: Vec<bool>, v6: Vec<bool> },
    /// What came of a receive.
    Received { outcome: Received },
    /// The wait is over.
    Rested,
}

/// What the thread is to do next.
#[derive(Debug)]
pub enum Action {
    /// Ask for the rebind request (unless on a private port) and the epoch.
    Check { take_rebind: bool },
    BindV4,
    BindV6,
    ReadAnswers,
    ListIndexes,
    /// Leave and join the groups of those families for which a list is given.
    Join { v4: Option<Regroup<Ipv4Addr>>, v6: Option<Regroup<u32>> },
    ReceiveV4,
    ReceiveV6,
    Pause { ms: u64 },
}

/// Memberships to leave, and then memberships to join.
#[derive(Debug)]
pub struct Regroup<T> {
    pub leave: Vec<T>,
    pub join: Vec<T>,
}

/// The state of the responder.
#[derive(Debug)]
pub struct Responder {
    phase: Phase,
    test_mode: bool,
    warned_bind: bool,
    bound_v4: bool,
    bound_v6: bool,
    joined_v4: Vec<Ipv4Addr>,
    joined_v6: Vec<u32>,
    want_v6: Vec<u32>,
    last_answers: Option<AnswerSet>,
    last_epoch: u64,
    got_any: bool,
}

/// What the state of the responder stands for.
#[verifier::ext_equal]
pub struct ResponderView {
    /// Where it stands in its round.
    pub phase: Phase,
    /// Whether it listens on a private port, without multicast.
    pub test_mode: bool,
    /// Whether a failure to bind was reported already.
    pub warned_bind: bool,
    /// Whether the IPv4 socket is open.
    pub bound_v4: bool,
    /// Whether the IPv6 socket is open.
    pub bound_v6: bool,
    /// The addresses on which the IPv4 group is joined.
    pub joined_v4: Seq<Ipv4Addr>,
    /// The interfaces on which the IPv6 group is joined.
    pub joined_v6: Seq<u32>,
    /// The interfaces on which the IPv6 group is to be joined.
    pub want_v6: Seq<u32>,
    /// The answers for which memberships were last looked at.
    pub last_answers: Option<AnswersView>,
    /// The epoch for which memberships were last looked at.
    pub last_epoch: u64,
    /// Whether a packet came in during this round.
    pub got_any: bool,
}

impl View for Responder {
    type V = ResponderView;

    closed spec fn view(&self) -> ResponderView {
        ResponderView {
            phase: self.phase,
            test_mode: self.test_mode,
            warned_bind: self.warned_bind,
            bound_v4: self.bound_v4,
            bound_v6: self.bound_v6,
            joined_v4: self.joined_v4@,
            joined_v6: self.joined_v6@,
            want_v6: self.want_v6@,
            last_answers: opt_view(self.last_answers),
            last_epoch: self.last_epoch,
            got_any: self.got_any,
        }
    }
}

/// The items whose flag is set; an item without a flag counts as failed.
pub open spec fn succeeded<A>(items: Seq<A>, ok: Seq<bool>) -> Seq<A>
    decreases items.len(),
{
    if items.len() == 0 {
        Seq::empty()
    } else {
        let before = succeeded(items.drop_last(), ok);
        let i = items.len() - 1;
        if i < ok.len() && ok[i] {
            before.push(items[i])
        } else {
            before
        }
    }
}

impl ResponderView {
    /// The IPv4 addresses of the answers, as they are listed.
    pub open spec fn listed_v4(self) -> Seq<Ipv4Addr> {
        match self.last_answers {
            Some(a) => a.v4.map_values(|x: crate::legacy_unicast::Addr4View| x.addr),
            None => Seq::empty(),
        }
    }

    /// Whether the IPv4 group is to be left and joined again.
    pub open spec fn replaces_v4(self, force: bool) -> bool {
        self.bound_v4 && (force || self.joined_v4 != sorted_distinct::<Ipv4Addr>(self.listed_v4()))
    }

    /// Whether the IPv6 group is to be left and joined again.
    pub open spec fn replaces_v6(self, force: bool) -> bool {
        self.bound_v6 && (force || self.joined_v6 != self.want_v6)
    }

    /// The first phase with a socket to open, or what follows.
    pub open spec fn to_bind(self) -> ResponderView {
        if !self.bound_v4 {
            ResponderView { phase: Phase::BindV4, ..self }
        } else {
            self.to_bind_v6()
        }
    }

    /// Opens the IPv6 socket where it is not open.
    pub open spec fn to_bind_v6(self) -> ResponderView {
        if !self.bound_v6 {
            ResponderView { phase: Phase::BindV6, ..self }
        } else {
            self.to_serve()
        }
    }

    /// With no socket, waits; else looks at memberships and receives.
    pub open spec fn to_serve(self) -> ResponderView {
        if !self.bound_v4 && !self.bound_v6 {
            ResponderView { phase: Phase::Rest { ms: BIND_RETRY_MS }, ..self }
        } else if self.test_mode {
            self.to_receive()
        } else {
            ResponderView { phase: Phase::Answers, ..self }
        }
    }

    /// Receives on the sockets that are open.
    pub open spec fn to_receive(self) -> ResponderView {
        if self.bound_v4 {
            ResponderView { phase: Phase::ReceiveV4, ..self }
        } else {
            self.to_receive_v6()
        }
    }

    /// Receives on the IPv6 socket, or ends the round.
    pub open spec fn to_receive_v6(self) -> ResponderView {
        if self.bound_v6 {
            ResponderView { phase: Phase::ReceiveV6, ..self }
        } else {
            self.to_end()
        }
    }

    /// The next round; after a wait where nothing came in.
    pub open spec fn to_end(self) -> ResponderView {
        ResponderView {
            phase: if self.got_any {
                Phase::Check
            } else {
                Phase::Rest { ms: IDLE_MS }
            },
            ..self
        }
    }

    /// The state without sockets, memberships or known answers.
    pub open spec fn unbound(self, epoch: u64) -> ResponderView {
        ResponderView {
            bound_v4: false,
            bound_v6: false,
            joined_v4: Seq::empty(),
            joined_v6: Seq::empty(),
            last_answers: None,
            last_epoch: if epoch > 0 {
                (epoch - 1) as u64
            } else {
                0
            },
            ..self
        }
    }

    /// The state after an event. An event that does not answer the current
    /// action changes nothing.
    pub open spec fn next(self, event: Event) -> ResponderView {
        match (self.phase, event) {
            (Phase::Check, Event::Checked { rebind, epoch }) => {
                let s = ResponderView { got_any: false, ..self };
                if rebind && !self.test_mode {
                    s.unbound(epoch).to_bind()
                } else {
                    s.to_bind()
                }
            },
            (Phase::BindV4, Event::Bound { ok }) => ResponderView {
                bound_v4: ok,
                warned_bind: !ok,
                ..self
            }.to_bind_v6(),
            (Phase::BindV6, Event::Bound { ok }) => ResponderView {
                bound_v6: ok,
                ..self
            }.to_serve(),
            (Phase::Answers, Event::Answers { answers, epoch }) => {
                let epoch_changed = epoch != self.last_epoch;
                if opt_view(answers) != self.last_answers || epoch_changed {
                    ResponderView {
                        phase: Phase::Index { force: epoch_changed },
                        last_answers: opt_view(answers),
                        last_epoch: epoch,
                        ..self
                    }
                } else {
                    self.to_receive()
                }
            },
            (Phase::Index { force }, Event::Indexes { indexes }) => ResponderView {
                phase: Phase::Join { force },
                want_v6: sorted_distinct::<u32>(indexes@),
                ..self
            },
            (Phase::Join { force }, Event::Joined { v4, v6 }) => ResponderView {
                joined_v4: if self.replaces_v4(force) {
                    sorted_distinct::<Ipv4Addr>(succeeded(self.listed_v4(), v4@))
                } else {
                    self.joined_v4
                },
                joined_v6: if self.replaces_v6(force) {
                    succeeded(self.want_v6, v6@)
                } else {
                    self.joined_v6
                },
                ..self
            }.to_receive(),
            (Phase::ReceiveV4, Event::Received { outcome }) => match outcome {
                Received::Packet => ResponderView { got_any: true, ..self }.to_receive_v6(),
                Received::Nothing => self.to_receive_v6(),
                Received::Failed => ResponderView {
                    bound_v4: false,
                    joined_v4: Seq::empty(),
                    last_answers: None,
                    ..self
                }.to_receive_v6(),
            },
            (Phase::ReceiveV6, Event::Received { outcome }) => match outcome {
                Received::Packet => ResponderView { got_any: true, ..self }.to_end(),
                Received::Nothing => self.to_end(),
                Received::Failed => ResponderView {
                    bound_v6: false,
                    joined_v6: Seq::empty(),
                    last_answers: None,
                    ..self
                }.to_end(),
            },
            (Phase::Rest { ms }, Event::Rested) => ResponderView { phase: Phase::Check, ..self },
            _ => self,
        }
    }

    /// What holds in every round: the responder receives on open sockets only,
    /// and on a private port it joins no group.
    pub open spec fn sound(self) -> bool {
        &&& self.phase is ReceiveV4 ==> self.bound_v4
        &&& self.phase is ReceiveV6 ==> self.bound_v6
        &&& self.phase is Answers || self.phase is Index || self.phase is Join ==> !self.test_mode
            && (self.bound_v4 || self.bound_v6)
        &&& self.test_mode ==> self.joined_v4.len() == 0 && self.joined_v6.len() == 0
    }
}

/// The items whose flag is set.
fn keep_succeeded<T: Value>(items: &[T], ok: &[bool]) -> (r: Vec<T>)
    ensures
        views(r@) == succeeded(views(items@), ok@),
{
    let mut out: Vec<T> = Vec::new();
    let ghost all = views(items@);
    let mut i: usize = 0;
    proof {
        assert(views(out@) =~= succeeded(all.take(0), ok@));
    }
    while i < items.len()
        invariant
            i <= items@.len(),
            all == views(items@),
            views(out@) == succeeded(all.take(i as int), ok@),
        decreases items@.len() - i,
    {
        proof {
            assert(all.take(i + 1).drop_last() =~= all.take(i as int));
        }
        if i < ok.len() && ok[i] {
            let ghost before = out@;
            out.push(items[i].copied());
            proof {
                assert(views(out@) =~= views(before).push(all[i as int]));
            }
        }
        i += 1;
    }
    proof {
        assert(all.take(i as int) =~= all);
    }
    out
}

impl Responder {
    /// A responder for a port. On another port than that of mDNS it works
    /// without multicast.
    pub fn new(port: u16) -> (r: Self)
        ensures
            r@ == (ResponderView {
                phase: Phase::Check,
                test_mode: port != MDNS_PORT,
                warned_bind: false,
                bound_v4: false,
                bound_v6: false,
                joined_v4: Seq::empty(),
                joined_v6: Seq::empty(),
                want_v6: Seq::empty(),
                last_answers: None,
                last_epoch: 0,
                got_any: false,
            }),
            r@.sound(),
    {
        Responder {
            phase: Phase::Check,
            test_mode: port != MDNS_PORT,
            warned_bind: false,
            bound_v4: false,
            bound_v6: false,
            joined_v4: Vec::new(),
            joined_v6: Vec::new(),
            want_v6: Vec::new(),
            last_answers: None,
            last_epoch: 0,
            got_any: false,
        }
    }

    /// Whether a failure to bind is to be reported: not while it persists.
    pub fn reports_bind_failure(&self) -> (r: bool)
        ensures
            r == !self@.warned_bind,
    {
        !self.warned_bind
    }

    /// The IPv4 addresses of the answers, as they are listed.
    fn listed_v4(&self) -> (r: Vec<Ipv4Addr>)
        ensures
            r@ == self@.listed_v4(),
    {
        let mut out: Vec<Ipv4Addr> = Vec::new();
        match &self.last_answers {
            None => {},
            Some(a) => {
                let ghost all = views(a.v4@);
                let ghost f = |x: crate::legacy_unicast::Addr4View| x.addr;
                let mut i: usize = 0;
                proof {
                    assert(out@ =~= all.take(0).map_values(f));
                }
                while i < a.v4.len()
                    invariant
                        i <= a.v4@.len(),
                        all == views(a.v4@),
                        f == (|x: crate::legacy_unicast::Addr4View| x.addr),
                        out@ == all.take(i as int).map_values(f),
                    decreases a.v4@.len() - i,
                {
                    out.push(a.v4[i].addr);
                    proof {
                        assert(all.take(i + 1).map_values(f) =~= all.take(i as int).map_values(
                            f,
                        ).push(f(all[i as int])));
                    }
                    i += 1;
                }
                proof {
                    assert(all.take(i as int) =~= all);
                }
            },
        }
        out
    }

    /// Whether the IPv4 group is to be left and joined again.
    fn replaces_v4(&self, force: bool) -> (r: bool)
        ensures
            r == self@.replaces_v4(force),
    {
        let mut want = self.listed_v4();
        sort_distinct(&mut want);
        proof {
            lemma_plain_views();
        }
        self.bound_v4 && should_replace_memberships(&self.joined_v4, &want, force)
    }

    /// Whether the IPv6 group is to be left and joined again.
    fn replaces_v6(&self, force: bool) -> (r: bool)
        ensures
            r == self@.replaces_v6(force),
    {
        proof {
            lemma_plain_views();
        }
        self.bound_v6 && should_replace_memberships(&self.joined_v6, &self.want_v6, force)
    }

    /// What to do next.
    pub fn action(&self) -> (r: Action)
        ensures
            match self@.phase {
                Phase::Check => r == (Action::Check { take_rebind: !self@.test_mode }),
                Phase::BindV4 => r is BindV4,
                Phase::BindV6 => r is BindV6,
                Phase::Answers => r is ReadAnswers,
                Phase::Index { force } => r is ListIndexes,
                Phase::Join { force } => {
                    &&& r is Join
                    &&& r->v4 is Some == self@.replaces_v4(force)
                    &&& r->v4 matches Some(g) ==> g.leave@ == self@.joined_v4 && g.join@
                        == self@.listed_v4()
                    &&& r->v6 is Some == self@.replaces_v6(force)
                    &&& r->v6 matches Some(g) ==> g.leave@ == self@.joined_v6 && g.join@
                        == self@.want_v6
                },
                Phase::ReceiveV4 => r is ReceiveV4,
                Phase::ReceiveV6 => r is ReceiveV6,
                Phase::Rest { ms } => r == (Action::Pause { ms }),
            },
    {
        match self.phase {
            Phase::Check => Action::Check { take_rebind: !self.test_mode },
            Phase::BindV4 => Action::BindV4,
            Phase::BindV6 => Action::BindV6,
            Phase::Answers => Action::ReadAnswers,
            Phase::Index { force: _ } => Action::ListIndexes,
            Phase::Join { force } => {
                proof {
                    lemma_plain_views();
                }
                let v4 = if self.replaces_v4(force) {
                    Some(Regroup { leave: copy_list(&self.joined_v4), join: self.listed_v4() })
                } else {
                    None
                };
                let v6 = if self.replaces_v6(force) {
                    Some(
                        Regroup { leave: copy_list(&self.joined_v6), join: copy_list(&self.want_v6) },
                    )
                } else {
                    None
                };
                Action::Join { v4, v6 }
            },
            Phase::ReceiveV4 => Action::ReceiveV4,
            Phase::ReceiveV6 => Action::ReceiveV6,
            Phase::Rest { ms } => Action::Pause { ms },
        }
    }

    fn go_end(&mut self)
        ensures
            final(self)@ == old(self)@.to_end(),
    {
        self.phase = if self.got_any {
            Phase::Check
        } else {
            Phase::Rest { ms: IDLE_MS }
        };
    }

    fn go_receive_v6(&mut self)
        ensures
            final(self)@ == old(self)@.to_receive_v6(),
    {
        if self.bound_v6 {
            self.phase = Phase::ReceiveV6;
        } else {
            self.go_end();
        }
    }

    fn go_receive(&mut self)
        ensures
            final(self)@ == old(self)@.to_receive(),
    {
        if self.bound_v4 {
            self.phase = Phase::ReceiveV4;
        } else {
            self.go_receive_v6();
        }
    }

    fn go_serve(&mut self)
        ensures
            final(self)@ == old(self)@.to_serve(),
    {
        if !self.bound_v4 && !self.bound_v6 {
            self.phase = Phase::Rest { ms: BIND_RETRY_MS };
        } else if self.test_mode {
            self.go_receive();
        } else {
            self.phase = Phase::Answers;
        }
    }

    fn go_bind_v6(&mut self)
        ensures
            final(self)@ == old(self)@.to_bind_v6(),
    {
        if !self.bound_v6 {
            self.phase = Phase::BindV6;
        } else {
            self.go_serve();
        }
    }

    /// Takes in what came of the current action.
    pub fn advance(&mut self, event: Event)
        ensures
            final(self)@ == old(self)@.next(event),
    {
        match (self.phase, event) {
            (Phase::Check, Event::Checked { rebind, epoch }) => {
                self.got_any = false;
                if rebind && !self.test_mode {
                    self.bound_v4 = false;
                    self.bound_v6 = false;
                    self.joined_v4 = Vec::new();
                    self.joined_v6 = Vec::new();
                    self.last_answers = None;
                    self.last_epoch = epoch.saturating_sub(1);
                }
                if !self.bound_v4 {
                    self.phase = Phase::BindV4;
                } else {
                    self.go_bind_v6();
                }
            },
            (Phase::BindV4, Event::Bound { ok }) => {
                self.bound_v4 = ok;
                self.warned_bind = !ok;
                self.go_bind_v6();
            },
            (Phase::BindV6, Event::Bound { ok }) => {
                self.bound_v6 = ok;
                self.go_serve();
            },
            (Phase::Answers, Event::Answers { answers, epoch }) => {
                let epoch_changed = epoch != self.last_epoch;
                let changed = !same_option(&answers, &self.last_answers);
                if memberships_need_refresh(changed, epoch_changed) {
                    self.last_answers = answers;
                    self.last_epoch = epoch;
                    self.phase = Phase::Index { force: epoch_changed };
                } else {
                    self.go_receive();
                }
            },
            (Phase::Index { force }, Event::Indexes { indexes }) => {
                proof {
                    lemma_plain_views();
                }
                let mut want = indexes;
                sort_distinct(&mut want);
                self.want_v6 = want;
                self.phase = Phase::Join { force };
            },
            (Phase::Join { force }, Event::Joined { v4, v6 }) => {
                proof {
                    lemma_plain_views();
                }
                let replace_v4 = self.replaces_v4(force);
                let replace_v6 = self.replaces_v6(force);
                if replace_v4 {
                    let mut joined = keep_succeeded(&self.listed_v4(), &v4);
                    sort_distinct(&mut joined);
                    self.joined_v4 = joined;
                }
                if replace_v6 {
                    self.joined_v6 = keep_succeeded(&self.want_v6, &v6);
                }
                self.go_receive();
            },
            (Phase::ReceiveV4, Event::Received { outcome }) => {
                match outcome {
                    Received::Packet => {
                        self.got_any = true;
                    },
                    Received::Nothing => {},
                    Received::Failed => {
                        self.bound_v4 = false;
                        self.joined_v4 = Vec::new();
                        self.last_answers = None;
                    },
                }
                self.go_receive_v6();
            },
            (Phase::ReceiveV6, Event::Received { outcome }) => {
                match outcome {
                    Received::Packet => {
                        self.got_any = true;
                    },
                    Received::Nothing => {},
                    Received::Failed => {
                        self.bound_v6 = false;
                        self.joined_v6 = Vec::new();
                        self.last_answers = None;
                    },
                }
                self.go_end();
            },
            (Phase::Rest { ms }, Event::Rested) => {
                self.phase = Phase::Check;
            },
            _ => {},
        }
    }
}

/// Every event keeps what holds in every round.
pub proof fn responder_stays_sound(s: ResponderView, event: Event)
    requires
        s.sound(),
    ensures
        s.next(event).sound(),
{
}

/// After a requested rebind both sockets are opened anew, and once they are,
/// the groups are joined whatever the answers are: the pass is forced.
pub proof fn rebind_forces_rejoin(
    s: ResponderView,
    epoch: u64,
    answers: Option<AnswerSet>,
    indexes: Vec<u32>,
)
    requires
        s.phase is Check,
        !s.test_mode,
        epoch > 0,
    ensures
        ({
            let a = s.next(Event::Checked { rebind: true, epoch });
            let b = a.next(Event::Bound { ok: true });
            let c = b.next(Event::Bound { ok: true });
            let d = c.next(Event::Answers { answers, epoch }).next(Event::Indexes { indexes });
            &&& a.phase is BindV4
            &&& b.phase is BindV6
            &&& c.phase is Answers
            &&& d.phase == Phase::Join { force: true }
            &&& d.joined_v4.len() == 0 && d.joined_v6.len() == 0
        }),
{
}

/// With the same answers and the same epoch memberships stay as they are.
pub proof fn same_answers_keep_memberships(s: ResponderView, answers: Option<AnswerSet>)
    requires
        s.phase is Answers,
        opt_view(answers) == s.last_answers,
    ensures
        ({
            let t = s.next(Event::Answers { answers, epoch: s.last_epoch });
            &&& !(t.phase is Index)
            &&& t.joined_v4 == s.joined_v4
            &&& t.joined_v6 == s.joined_v6
        }),
{
}

/// A new epoch makes the groups be left and joined again, whatever the answers
/// are.
pub proof fn new_epoch_forces_rejoin(
    s: ResponderView,
    answers: Option<AnswerSet>,
    epoch: u64,
    indexes: Vec<u32>,
)
    requires
        s.phase is Answers,
        epoch != s.last_epoch,
    ensures
        ({
            let t = s.next(Event::Answers { answers, epoch }).next(Event::Indexes { indexes });
            &&& t.phase == Phase::Join { force: true }
            &&& t.replaces_v4(true) == s.bound_v4
            &&& t.replaces_v6(true) == s.bound_v6
            &&& t.last_epoch == epoch
        }),
{
}

/// A join that failed does not count, and one that succeeded does: after a
/// round of joins the groups are joined exactly where the thread said so.
pub proof fn joins_count_where_they_succeed(
    s: ResponderView,
    force: bool,
    v4: Vec<bool>,
    v6: Vec<bool>,
    a: Ipv4Addr,
    x: u32,
)
    requires
        s.phase == (Phase::Join { force }),
    ensures
        ({
            let t = s.next(Event::Joined { v4, v6 });
            let wanted = s.listed_v4();
            &&& s.replaces_v4(force) ==> (t.joined_v4.contains(a) <==> exists|i: int|
                0 <= i < wanted.len() && i < v4@.len() && v4@[i] && #[trigger] wanted[i] == a)
            &&& s.replaces_v6(force) ==> (t.joined_v6.contains(x) <==> exists|i: int|
                0 <= i < s.want_v6.len() && i < v6@.len() && v6@[i] && #[trigger] s.want_v6[i]
                    == x)
            &&& !s.replaces_v4(force) ==> t.joined_v4 == s.joined_v4
            &&& !s.replaces_v6(force) ==> t.joined_v6 == s.joined_v6
            &&& s.bound_v4 ==> t.phase is ReceiveV4
            &&& !s.bound_v4 && s.bound_v6 ==> t.phase is ReceiveV6
        }),
{
    let wanted = s.listed_v4();
    crate::order::distinct_keeps_every_value::<Ipv4Addr>(succeeded(wanted, v4@), a);
    lemma_succeeded_has(wanted, v4@, a);
    lemma_succeeded_has(s.want_v6, v6@, x);
}

/// What succeeded is what has its flag set.
proof fn lemma_succeeded_has<A>(items: Seq<A>, ok: Seq<bool>, x: A)
    ensures
        succeeded(items, ok).contains(x) <==> exists|i: int|
            0 <= i < items.len() && i < ok.len() && ok[i] && #[trigger] items[i] == x,
    decreases items.len(),
{
    if items.len() > 0 {
        let d = items.drop_last();
        let n = items.len() - 1;
        let l = items[n];
        lemma_succeeded_has(d, ok, x);
        let before = succeeded(d, ok);
        crate::order::lemma_sum_has(before, seq![l], x);
        assert(before + seq![l] =~= before.push(l));
        assert(seq![l].contains(x) <==> l == x) by {
            assert(seq![l][0] == l);
        }
        if before.contains(x) {
            let i = choose|i: int|
                0 <= i < d.len() && i < ok.len() && ok[i] && #[trigger] d[i] == x;
            assert(items[i] == x);
        }
        if exists|i: int|
            0 <= i < items.len() && i < ok.len() && ok[i] && #[trigger] items[i] == x {
            let i = choose|i: int|
                0 <= i < items.len() && i < ok.len() && ok[i] && #[trigger] items[i] == x;
            if i < n {
                assert(d[i] == x);
            }
        }
    }
}

/// The groups are to be joined on the IPv4 addresses that are answered and on
/// the interfaces that are usable. Where a socket is open, they are left and
/// joined again if that is forced or if what is joined differs.
pub proof fn groups_follow_the_answers(
    s: ResponderView,
    answers: Option<AnswerSet>,
    epoch: u64,
    indexes: Vec<u32>,
    x: u32,
    i: int,
)
    requires
        s.phase is Answers,
        opt_view(answers) != s.last_answers || epoch != s.last_epoch,
    ensures
        ({
            let t = s.next(Event::Answers { answers, epoch });
            let u = t.next(Event::Indexes { indexes });
            let force = epoch != s.last_epoch;
            &&& t.phase == (Phase::Index { force })
            &&& u.phase == (Phase::Join { force })
            &&& u.want_v6.contains(x) <==> indexes@.contains(x)
            &&& u.want_v6.no_duplicates()
            &&& u.last_epoch == epoch
            &&& answers is None ==> u.listed_v4().len() == 0
            &&& answers is Some ==> u.listed_v4().len() == answers->0.v4@.len()
            &&& answers is Some && 0 <= i < answers->0.v4@.len() ==> u.listed_v4()[i]
                == answers->0.v4@[i].addr
            &&& u.joined_v4 == s.joined_v4 && u.joined_v6 == s.joined_v6
            &&& u.replaces_v6(false) <==> s.bound_v6 && s.joined_v6 != u.want_v6
        }),
{
    crate::order::distinct_keeps_every_value::<u32>(indexes@, x);
}

/// A socket whose receive fails is given up with its memberships, and opened
/// again in the next round; the other one stays.
pub proof fn failed_sockets_are_reopened(s: ResponderView, epoch: u64)
    requires
        s.phase is ReceiveV4,
        s.bound_v4,
    ensures
        ({
            let t = s.next(Event::Received { outcome: Received::Failed });
            &&& !t.bound_v4 && t.joined_v4.len() == 0 && t.last_answers is None
            &&& t.bound_v6 == s.bound_v6 && t.joined_v6 == s.joined_v6
            &&& s.bound_v6 ==> t.phase is ReceiveV6
            &&& ({
                let u = ResponderView { phase: Phase::Check, ..t }.next(
                    Event::Checked { rebind: false, epoch },
                );
                u.phase is BindV4
            })
        }),
{
}

/// The same for the IPv6 socket.
pub proof fn failed_sockets_are_reopened6(s: ResponderView, epoch: u64)
    requires
        s.phase is ReceiveV6,
        s.bound_v6,
    ensures
        ({
            let t = s.next(Event::Received { outcome: Received::Failed });
            let u = ResponderView { phase: Phase::Check, ..t }.next(
                Event::Checked { rebind: false, epoch },
            );
            &&& !t.bound_v6 && t.joined_v6.len() == 0 && t.last_answers is None
            &&& t.bound_v4 == s.bound_v4 && t.joined_v4 == s.joined_v4
            &&& s.bound_v4 ==> u.phase is BindV6
            &&& !s.bound_v4 ==> u.phase is BindV4
        }),
{
}

/// A round receives on both sockets. It is followed by the next at once if a
/// packet came in, and after a pause of a twentieth of a second otherwise.
pub proof fn rounds_pause_when_idle(s: ResponderView, first: bool, second: bool)
    requires
        s.phase is ReceiveV4,
        s.bound_v4 && s.bound_v6,
        !s.got_any,
    ensures
        ({
            let a = s.next(
                Event::Received {
                    outcome: if first {
                        Received::Packet
                    } else {
                        Received::Nothing
                    },
                },
            );
            let b = a.next(
                Event::Received {
                    outcome: if second {
                        Received::Packet
                    } else {
                        Received::Nothing
                    },
                },
            );
            &&& a.phase is ReceiveV6
            &&& first || second ==> b.phase is Check
            &&& !first && !second ==> b.phase == (Phase::Rest { ms: 50 })
            &&& !first && !second ==> b.next(Event::Rested).phase is Check
            &&& b.bound_v4 && b.bound_v6
            &&& b.joined_v4 == s.joined_v4 && b.joined_v6 == s.joined_v6
        }),
{
}

/// Where neither socket can be opened, the thread waits for three seconds and
/// tries again; one open socket is enough to go on. On a private port it goes
/// on to receive without joining groups.
pub proof fn one_socket_is_enough(s: ResponderView, v4: bool, v6: bool, epoch: u64)
    requires
        s.phase is Check,
        !s.bound_v4 && !s.bound_v6,
    ensures
        ({
            let a = s.next(Event::Checked { rebind: false, epoch });
            let b = a.next(Event::Bound { ok: v4 });
            let c = b.next(Event::Bound { ok: v6 });
            &&& a.phase is BindV4 && b.phase is BindV6
            &&& c.bound_v4 == v4 && c.bound_v6 == v6
            &&& !v4 && !v6 ==> c.phase == (Phase::Rest { ms: 3000 })
            &&& (v4 || v6) && !s.test_mode ==> c.phase is Answers
            &&& v4 && s.test_mode ==> c.phase is ReceiveV4
            &&& !v4 && v6 && s.test_mode ==> c.phase is ReceiveV6
            &&& b.warned_bind == !v4
        }),
{
}

} // verus!
