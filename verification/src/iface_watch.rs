//! Interface and address changes, as rtnetlink reports them.
//!
//! A change of a **relevant** interface (allow/skip filtered) is signaled.
//! Loopback, docker/veth/br-*, and configured skip prefixes are ignored. Events
//! are debounced so a burst (DHCP, link flap) becomes one signal.
//!
//! The kernel writes messages in the byte order of the machine.

use vstd::prelude::*;
use vstd::utf8::{decode_utf8, valid_utf8};

use crate::bytes::{
    bytes16, bytes32, native_bytes, num16_at, num32_at, numbers_are_read_in_place,
    numbers_move_with_their_bytes, order_of_one, read16, read32, text_from_utf8, ByteOrder,
};
use crate::mdns::{iface_name_relevant, relevant};
use crate::order::pair_views;
use crate::numeral::{parse_unsigned, unsigned_to};
use crate::text::{texts, trim, trimmed};
use crate::time::{after_ms, deadline};
use crate::value::Value;

verus! {

/// How long to wait when the netlink socket cannot be opened, in milliseconds.
pub const BIND_RETRY_MS: u64 = 3000;

/// How long one receive waits, in milliseconds.
pub const RECV_TIMEOUT_MS: u64 = 500;

/// Coalesce a burst of netlink events into one signal, in milliseconds.
pub const DEBOUNCE_MS: u64 = 400;

/// Bound on coalesced iface-change signals waiting for the main loop.
pub const IFACE_CHANGE_CAPACITY: usize = 32;

pub const NLMSG_HDRLEN: usize = 16;

pub const IFINFOMSG_LEN: usize = 16;

pub const IFADDRMSG_LEN: usize = 8;

pub const RTA_HDRLEN: usize = 4;

pub const RTM_NEWLINK: u16 = 16;

pub const RTM_DELLINK: u16 = 17;

pub const RTM_GETLINK: u16 = 18;

pub const RTM_NEWADDR: u16 = 20;

pub const RTM_DELADDR: u16 = 21;

pub const IFLA_IFNAME: u16 = 3;

pub const IFA_LABEL: u16 = 3;

/// Signal that interface or address state may have changed on a used NIC.
#[derive(Debug, Clone, Copy, PartialEq, Eq, Structural)]
pub struct IfaceChange;

/// A length rounded up to a multiple of four.
pub open spec fn align4(n: int) -> int {
    (n + 3) / 4 * 4
}

/// The bytes before the first zero.
pub open spec fn until_zero(s: Seq<u8>) -> Seq<u8>
    decreases s.len(),
{
    if s.len() == 0 || s[0] == 0 {
        Seq::empty()
    } else {
        seq![s[0]] + until_zero(s.skip(1))
    }
}

/// The text of the first attribute of the wanted type from `off` on.
pub open spec fn attr_text(attrs: Seq<u8>, off: int, want: u16, order: ByteOrder) -> Option<
    Seq<char>,
>
    decreases (if off <= attrs.len() {
        attrs.len() - off
    } else {
        0
    }),
{
    if off < 0 || off + RTA_HDRLEN > attrs.len() {
        None
    } else {
        let len = num16_at(attrs, off, order);
        if len < RTA_HDRLEN || off + len > attrs.len() {
            None
        } else if num16_at(attrs, off + 2, order) == want {
            let text = until_zero(attrs.subrange(off + RTA_HDRLEN, off + len));
            if valid_utf8(text) {
                Some(decode_utf8(text))
            } else {
                None
            }
        } else {
            attr_text(attrs, off + align4(len), want, order)
        }
    }
}

/// The name in the attributes, empty where there is none.
pub open spec fn attr_name(attrs: Seq<u8>, want: u16, order: ByteOrder) -> Seq<char> {
    match attr_text(attrs, 0, want, order) {
        Some(t) => t,
        None => Seq::empty(),
    }
}

/// The interface that one message speaks of: its index, unless that is zero,
/// and its name.
pub open spec fn message_iface(kind: int, payload: Seq<u8>, order: ByteOrder) -> Option<
    (u32, Seq<char>),
> {
    let link = kind == RTM_NEWLINK || kind == RTM_DELLINK || kind == RTM_GETLINK;
    let addr = kind == RTM_NEWADDR || kind == RTM_DELADDR;
    let index = num32_at(payload, 4, order) as u32;
    if index == 0 {
        None
    } else if link && payload.len() >= IFINFOMSG_LEN {
        Some((index, attr_name(payload.skip(IFINFOMSG_LEN as int), IFLA_IFNAME, order)))
    } else if addr && payload.len() >= IFADDRMSG_LEN {
        Some((index, attr_name(payload.skip(IFADDRMSG_LEN as int), IFA_LABEL, order)))
    } else {
        None
    }
}

/// An optional item as a list.
pub open spec fn as_list<A>(x: Option<A>) -> Seq<A> {
    match x {
        Some(a) => seq![a],
        None => Seq::empty(),
    }
}

/// The interfaces that the messages from `off` on speak of. A message that is
/// cut off ends the list.
pub open spec fn ifaces_from(buf: Seq<u8>, off: int, order: ByteOrder) -> Seq<(u32, Seq<char>)>
    decreases (if off <= buf.len() {
        buf.len() - off
    } else {
        0
    }),
{
    if off < 0 || off + NLMSG_HDRLEN > buf.len() {
        Seq::empty()
    } else {
        let len = num32_at(buf, off, order);
        if len < NLMSG_HDRLEN || off + len > buf.len() {
            Seq::empty()
        } else {
            as_list(
                message_iface(
                    num16_at(buf, off + 4, order),
                    buf.subrange(off + NLMSG_HDRLEN, off + len),
                    order,
                ),
            ) + ifaces_from(buf, off + align4(len), order)
        }
    }
}

/// The view of a list of interfaces.
pub open spec fn iface_views(s: Seq<(u32, String)>) -> Seq<(u32, Seq<char>)> {
    s.map_values(|p: (u32, String)| (p.0, p.1@))
}

/// The length of the bytes before the first zero.
fn zero_at(data: &[u8]) -> (r: usize)
    ensures
        r <= data@.len(),
        data@.take(r as int) == until_zero(data@),
{
    let mut i: usize = 0;
    proof {
        assert(data@.skip(0) =~= data@);
        assert(data@.take(0) + until_zero(data@.skip(0)) =~= until_zero(data@));
    }
    while i < data.len() && data[i] != 0
        invariant
            i <= data@.len(),
            data@.take(i as int) + until_zero(data@.skip(i as int)) == until_zero(data@),
        decreases data@.len() - i,
    {
        proof {
            let rest = data@.skip(i as int);
            assert(rest.skip(1) =~= data@.skip(i + 1));
            assert(data@.take(i as int) + (seq![data@[i as int]] + until_zero(rest.skip(1)))
                =~= data@.take(i + 1) + until_zero(data@.skip(i + 1)));
        }
        i += 1;
    }
    proof {
        assert(data@.take(i as int) + until_zero(data@.skip(i as int)) =~= data@.take(i as int));
    }
    i
}

/// Reads the text of the first attribute of the wanted type.
#[verifier::spinoff_prover]
#[verifier::rlimit(60)]
fn rta_str(attrs: &[u8], want: u16, order: ByteOrder) -> (r: Option<String>)
    ensures
        crate::value::opt_view(r) == attr_text(attrs@, 0, want, order),
{
    let n: usize = attrs.len();
    let mut off: usize = 0;
    while n - off >= RTA_HDRLEN
        invariant
            n == attrs@.len(),
            off <= n,
            attr_text(attrs@, 0, want, order) == attr_text(attrs@, off as int, want, order),
        decreases n - off,
    {
        let len: usize = read16(attrs, off, order) as usize;
        let kind: u16 = read16(attrs, off + 2, order);
        if len < RTA_HDRLEN || len > n - off {
            return None;
        }
        if kind == want {
            let data = &attrs[off + RTA_HDRLEN..off + len];
            let end: usize = zero_at(data);
            proof {
                assert(data@.subrange(0, end as int) =~= data@.take(end as int));
            }
            return match text_from_utf8(&data[0..end]) {
                Some(t) => Some(t.to_owned()),
                None => None,
            };
        }
        let pad: usize = (4 - len % 4) % 4;
        assert(align4(len as int) == len + pad);
        if n - off - len < pad {
            assert(attr_text(attrs@, off + align4(len as int), want, order) is None);
            return None;
        }
        off = off + len + pad;
    }
    None
}

/// Reads the interface that one message speaks of.
fn read_message(kind: u16, payload: &[u8], order: ByteOrder) -> (r: Option<(u32, String)>)
    ensures
        match r {
            Some((index, name)) => message_iface(kind as int, payload@, order) == Some(
                (index, name@),
            ),
            None => message_iface(kind as int, payload@, order) is None,
        },
{
    let link = kind == RTM_NEWLINK || kind == RTM_DELLINK || kind == RTM_GETLINK;
    let addr = kind == RTM_NEWADDR || kind == RTM_DELADDR;
    let n: usize = payload.len();
    if link && n >= IFINFOMSG_LEN {
        let index: u32 = read32(payload, 4, order);
        if index == 0 {
            return None;
        }
        proof {
            assert(payload@.subrange(16, n as int) =~= payload@.skip(16));
        }
        let name = match rta_str(&payload[IFINFOMSG_LEN..n], IFLA_IFNAME, order) {
            Some(t) => t,
            None => String::new(),
        };
        Some((index, name))
    } else if addr && n >= IFADDRMSG_LEN {
        let index: u32 = read32(payload, 4, order);
        if index == 0 {
            return None;
        }
        proof {
            assert(payload@.subrange(8, n as int) =~= payload@.skip(8));
        }
        let name = match rta_str(&payload[IFADDRMSG_LEN..n], IFA_LABEL, order) {
            Some(t) => t,
            None => String::new(),
        };
        Some((index, name))
    } else {
        None
    }
}

/// Parse interface index + name from a netlink route dump / event buffer that
/// was written in the given byte order.
#[verifier::spinoff_prover]
#[verifier::rlimit(60)]
pub fn parse_netlink_in(buf: &[u8], order: ByteOrder) -> (r: Vec<(u32, String)>)
    ensures
        iface_views(r@) == ifaces_from(buf@, 0, order),
{
    let mut out: Vec<(u32, String)> = Vec::new();
    let n: usize = buf.len();
    let mut off: usize = 0;
    proof {
        assert(iface_views(out@) + ifaces_from(buf@, 0, order) =~= ifaces_from(buf@, 0, order));
    }
    while n - off >= NLMSG_HDRLEN
        invariant
            n == buf@.len(),
            off <= n,
            iface_views(out@) + ifaces_from(buf@, off as int, order) == ifaces_from(buf@, 0, order),
        decreases n - off,
    {
        let len: usize = read32(buf, off, order) as usize;
        if len < NLMSG_HDRLEN || len > n - off {
            proof {
                assert(iface_views(out@) + Seq::<(u32, Seq<char>)>::empty() =~= iface_views(out@));
            }
            return out;
        }
        let kind: u16 = read16(buf, off + 4, order);
        let ghost before = out@;
        let ghost rest = ifaces_from(buf@, off + align4(len as int), order);
        let ghost item_here = message_iface(
            kind as int,
            buf@.subrange(off + NLMSG_HDRLEN, off + len),
            order,
        );
        assert(ifaces_from(buf@, off as int, order) == as_list(item_here) + rest);
        match read_message(kind, &buf[off + NLMSG_HDRLEN..off + len], order) {
            Some(item) => {
                out.push(item);
                proof {
                    assert(iface_views(out@) =~= iface_views(before).push((item.0, item.1@)));
                    assert(iface_views(before) + (seq![(item.0, item.1@)] + rest) =~= iface_views(
                        out@,
                    ) + rest);
                }
            },
            None => {
                proof {
                    assert(Seq::<(u32, Seq<char>)>::empty() + rest =~= rest);
                }
            },
        }
        let pad: usize = (4 - len % 4) % 4;
        assert(align4(len as int) == len + pad);
        if n - off - len < pad {
            proof {
                assert(iface_views(out@) + rest =~= iface_views(out@));
            }
            return out;
        }
        off = off + len + pad;
    }
    proof {
        assert(iface_views(out@) + ifaces_from(buf@, off as int, order) =~= iface_views(out@));
    }
    out
}

/// Parse interface index + name from a netlink route dump / event buffer of
/// this machine. [`parse_netlink_in`] says what comes of it in either byte
/// order.
pub fn parse_netlink_ifaces(buf: &[u8]) -> (r: Vec<(u32, String)>)
    ensures
        iface_views(r@) == ifaces_from(buf@, 0, ByteOrder::Little) || iface_views(r@)
            == ifaces_from(buf@, 0, ByteOrder::Big),
{
    parse_netlink_in(buf, order_of_one(&native_bytes(1)))
}

/// The name of the first of the first `n` interfaces with the given index,
/// among names with the texts of their index files.
pub open spec fn name_of_index(known: Seq<(Seq<char>, Seq<char>)>, ifindex: u32) -> Option<
    Seq<char>,
>
    decreases known.len(),
{
    if known.len() == 0 {
        None
    } else {
        match name_of_index(known.drop_last(), ifindex) {
            Some(name) => Some(name),
            None => if unsigned_to(trimmed(known.last().1), 10, 0xffff_ffff) == Some(
                ifindex as nat,
            ) {
                Some(known.last().0)
            } else {
                None
            },
        }
    }
}

/// The name of the interface with an index, among names with the texts of
/// their index files.
pub fn name_for_ifindex(known: &[(String, String)], ifindex: u32) -> (r: Option<String>)
    ensures
        crate::value::opt_view(r) == name_of_index(pair_views(known@), ifindex),
{
    let ghost all = pair_views(known@);
    let mut i: usize = 0;
    while i < known.len()
        invariant
            i <= known@.len(),
            all == pair_views(known@),
            name_of_index(all.take(i as int), ifindex) is None,
        decreases known@.len() - i,
    {
        proof {
            assert(all.take(i + 1).drop_last() =~= all.take(i as int));
        }
        match parse_unsigned(trim(known[i].1.as_str()).as_str(), 10, 0xffff_ffff) {
            Some(v) => {
                if v == ifindex as u64 {
                    proof {
                        lemma_name_found(all, i + 1, ifindex);
                    }
                    return Some(known[i].0.copied());
                }
            },
            None => {},
        }
        i += 1;
    }
    proof {
        assert(all.take(i as int) =~= all);
    }
    None
}

/// A name found early is the name found in the whole list.
proof fn lemma_name_found(known: Seq<(Seq<char>, Seq<char>)>, n: int, ifindex: u32)
    requires
        0 <= n <= known.len(),
        name_of_index(known.take(n), ifindex) is Some,
    ensures
        name_of_index(known, ifindex) == name_of_index(known.take(n), ifindex),
    decreases known.len() - n,
{
    if n < known.len() {
        assert(known.take(n + 1).drop_last() =~= known.take(n));
        lemma_name_found(known, n + 1, ifindex);
    } else {
        assert(known.take(n) =~= known);
    }
}

/// Whether an event for an interface matters. One whose name cannot be found
/// out does.
pub open spec fn event_matters(
    item: (u32, Seq<char>),
    allow: Seq<Seq<char>>,
    skip: Seq<Seq<char>>,
    known: Seq<(Seq<char>, Seq<char>)>,
) -> bool {
    let name = if item.1.len() > 0 {
        item.1
    } else {
        match name_of_index(known, item.0) {
            Some(n) => n,
            None => Seq::empty(),
        }
    };
    name.len() == 0 || relevant(name, allow, skip)
}

/// Whether a buffer in the given byte order has an event that matters.
pub open spec fn buffer_matters(
    buf: Seq<u8>,
    order: ByteOrder,
    allow: Seq<Seq<char>>,
    skip: Seq<Seq<char>>,
    known: Seq<(Seq<char>, Seq<char>)>,
) -> bool {
    exists|i: int|
        0 <= i < ifaces_from(buf, 0, order).len() && event_matters(
            #[trigger] ifaces_from(buf, 0, order)[i],
            allow,
            skip,
            known,
        )
}

/// True when `buf`, which was written in the given byte order, contains a
/// link/addr event for an interface we advertise on. Names missing in it are
/// looked up among `known`.
pub fn netlink_matters_in(
    buf: &[u8],
    order: ByteOrder,
    allow: &[String],
    skip: &[String],
    known: &[(String, String)],
) -> (r: bool)
    ensures
        r == buffer_matters(buf@, order, texts(allow@), texts(skip@), pair_views(known@)),
{
    let items = parse_netlink_in(buf, order);
    let ghost all = ifaces_from(buf@, 0, order);
    let mut i: usize = 0;
    while i < items.len()
        invariant
            i <= items@.len(),
            all == iface_views(items@),
            all == ifaces_from(buf@, 0, order),
            forall|k: int|
                0 <= k < i ==> !event_matters(
                    #[trigger] all[k],
                    texts(allow@),
                    texts(skip@),
                    pair_views(known@),
                ),
        decreases items@.len() - i,
    {
        let item = &items[i];
        let name = if item.1.as_str().is_empty() {
            match name_for_ifindex(known, item.0) {
                Some(n) => n,
                None => String::new(),
            }
        } else {
            item.1.copied()
        };
        assert(all[i as int] == (item.0, item.1@));
        if name.as_str().is_empty() || iface_name_relevant(name.as_str(), allow, skip) {
            assert(event_matters(
                all[i as int],
                texts(allow@),
                texts(skip@),
                pair_views(known@),
            ));
            return true;
        }
        i += 1;
    }
    false
}

/// True when `buf` contains a link/addr event for an interface we advertise on.
/// Names missing in it are looked up among `known`. [`netlink_matters_in`] says
/// what comes of it in either byte order.
pub fn netlink_is_relevant(
    buf: &[u8],
    allow: &[String],
    skip: &[String],
    known: &[(String, String)],
) -> (r: bool)
    ensures
        ({
            let little = buffer_matters(
                buf@,
                ByteOrder::Little,
                texts(allow@),
                texts(skip@),
                pair_views(known@),
            );
            let big = buffer_matters(
                buf@,
                ByteOrder::Big,
                texts(allow@),
                texts(skip@),
                pair_views(known@),
            );
            r == little || r == big
        }),
{
    netlink_matters_in(buf, order_of_one(&native_bytes(1)), allow, skip, known)
}

/// Where the watcher stands.
#[derive(Debug, Clone, Copy, PartialEq, Eq, Structural)]
pub enum WatchPhase {
    /// Open the netlink socket.
    Open,
    /// Wait before opening it again.
    Rest,
    /// Receive a message.
    Receive,
    /// Throw away what else came in.
    Drain,
    /// Signal the change to the main loop.
    Signal,
    /// The main loop is gone.
    Stopped,
}

/// What came of a step of the watcher.
#[derive(Debug, Clone, Copy, PartialEq, Eq, Structural)]
pub enum WatchEvent {
    /// Whether the socket was opened, and when.
    Opened { ok: bool, now: u64 },
    Rested,
    /// Whether a relevant message came in; none, an irrelevant one and an
    /// interruption count as not.
    Received { relevant: bool, now: u64 },
    /// Receiving failed.
    Failed,
    /// Whether something was thrown away.
    Drained { more: bool },
    /// Whether the main loop still listens. A full queue counts as delivered.
    Signaled { delivered: bool },
}

/// The state of the interface watcher.
#[derive(Debug, Clone, Copy, PartialEq, Eq, Structural)]
pub struct Watcher {
    pub phase: WatchPhase,
    /// Whether a failure to open was reported already.
    pub warned: bool,
    /// Whether a change waits to be signaled.
    pub pending: bool,
    /// When the waiting change is to be signaled.
    pub deadline: u128,
}

/// The state after an event. An event that does not answer the current step
/// changes nothing.
pub open spec fn watch_next(s: Watcher, event: WatchEvent) -> Watcher {
    match (s.phase, event) {
        (WatchPhase::Open, WatchEvent::Opened { ok, now }) => if ok {
            Watcher {
                phase: WatchPhase::Receive,
                warned: false,
                pending: false,
                deadline: now as u128,
            }
        } else {
            Watcher { phase: WatchPhase::Rest, warned: true, ..s }
        },
        (WatchPhase::Rest, WatchEvent::Rested) => Watcher { phase: WatchPhase::Open, ..s },
        (WatchPhase::Receive, WatchEvent::Received { relevant, now }) => if relevant {
            Watcher { pending: true, deadline: after_ms(now, DEBOUNCE_MS) as u128, ..s }
        } else if s.pending && now >= s.deadline {
            Watcher { phase: WatchPhase::Drain, ..s }
        } else {
            s
        },
        (WatchPhase::Receive, WatchEvent::Failed) => Watcher { phase: WatchPhase::Open, ..s },
        (WatchPhase::Drain, WatchEvent::Drained { more }) => if more {
            s
        } else {
            Watcher { phase: WatchPhase::Signal, pending: false, ..s }
        },
        (WatchPhase::Signal, WatchEvent::Signaled { delivered }) => Watcher {
            phase: if delivered {
                WatchPhase::Receive
            } else {
                WatchPhase::Stopped
            },
            ..s
        },
        _ => s,
    }
}

impl Watcher {
    /// A watcher that has yet to open its socket.
    pub fn new() -> (r: Self)
        ensures
            r == (Watcher { phase: WatchPhase::Open, warned: false, pending: false, deadline: 0 }),
    {
        Watcher { phase: WatchPhase::Open, warned: false, pending: false, deadline: 0 }
    }

    /// Takes in what came of the current step.
    pub fn advance(&mut self, event: WatchEvent)
        ensures
            *final(self) == watch_next(*old(self), event),
    {
        match (self.phase, event) {
            (WatchPhase::Open, WatchEvent::Opened { ok, now }) => {
                if ok {
                    self.phase = WatchPhase::Receive;
                    self.warned = false;
                    self.pending = false;
                    self.deadline = now as u128;
                } else {
                    self.phase = WatchPhase::Rest;
                    self.warned = true;
                }
            },
            (WatchPhase::Rest, WatchEvent::Rested) => {
                self.phase = WatchPhase::Open;
            },
            (WatchPhase::Receive, WatchEvent::Received { relevant, now }) => {
                if relevant {
                    self.pending = true;
                    self.deadline = deadline(now, DEBOUNCE_MS);
                } else if self.pending && now as u128 >= self.deadline {
                    self.phase = WatchPhase::Drain;
                }
            },
            (WatchPhase::Receive, WatchEvent::Failed) => {
                self.phase = WatchPhase::Open;
            },
            (WatchPhase::Drain, WatchEvent::Drained { more }) => {
                if !more {
                    self.phase = WatchPhase::Signal;
                    self.pending = false;
                }
            },
            (WatchPhase::Signal, WatchEvent::Signaled { delivered }) => {
                self.phase = if delivered {
                    WatchPhase::Receive
                } else {
                    WatchPhase::Stopped
                };
            },
            _ => {},
        }
    }
}

/// Irrelevant messages alone never lead to a signal.
pub proof fn irrelevant_is_ignored(s: Watcher, now: u64)
    requires
        s.phase is Receive,
        !s.pending,
    ensures
        watch_next(s, WatchEvent::Received { relevant: false, now }) == s,
{
}

/// A burst becomes one signal: after two relevant messages the change is due
/// only when the pause has passed since the second.
pub proof fn burst_is_coalesced(s: Watcher, first: u64, second: u64, later: u64)
    requires
        s.phase is Receive,
    ensures
        ({
            let a = watch_next(s, WatchEvent::Received { relevant: true, now: first });
            let b = watch_next(a, WatchEvent::Received { relevant: true, now: second });
            let c = watch_next(b, WatchEvent::Received { relevant: false, now: later });
            &&& a.phase is Receive && b.phase is Receive
            &&& c.phase is Drain <==> later >= after_ms(second, DEBOUNCE_MS)
        }),
{
}

/// An attribute as the kernel writes it: its length without padding, its type,
/// the text, a zero, and padding up to a multiple of four.
pub open spec fn attribute(kind: u16, text: Seq<u8>, order: ByteOrder) -> Seq<u8> {
    let len = 5 + text.len() as int;
    bytes16(len as u16, order) + bytes16(kind, order) + text + Seq::new(
        (align4(len) - len + 1) as nat,
        |i: int| 0u8,
    )
}

/// A text without a zero ends at the first zero behind it.
proof fn lemma_until_zero(text: Seq<u8>, behind: Seq<u8>)
    requires
        !text.contains(0),
        behind.len() > 0 && behind[0] == 0,
    ensures
        until_zero(text + behind) == text,
    decreases text.len(),
{
    let s = text + behind;
    if text.len() > 0 {
        let rest = text.skip(1);
        assert(text[0] != 0) by {
            assert(text.contains(text[0]));
        }
        assert(!rest.contains(0)) by {
            if rest.contains(0) {
                let k = choose|k: int| 0 <= k < rest.len() && rest[k] == 0;
                assert(text[k + 1] == 0);
            }
        }
        lemma_until_zero(rest, behind);
        assert(s.skip(1) =~= rest + behind);
        assert(seq![text[0]] + rest =~= text);
    } else {
        assert(s =~= behind);
        assert(until_zero(s) =~= text);
    }
}

/// What stands before attributes does not matter for reading them.
proof fn lemma_attrs_move(
    before: Seq<u8>,
    attrs: Seq<u8>,
    off: int,
    want: u16,
    order: ByteOrder,
)
    requires
        0 <= off,
    ensures
        attr_text(before + attrs, before.len() + off, want, order) == attr_text(
            attrs,
            off,
            want,
            order,
        ),
    decreases (if off <= attrs.len() {
        attrs.len() - off
    } else {
        0
    }),
{
    let s = before + attrs;
    let at = before.len() + off;
    if off + RTA_HDRLEN <= attrs.len() {
        numbers_move_with_their_bytes(before, attrs, off, order);
        numbers_move_with_their_bytes(before, attrs, off + 2, order);
        let len = num16_at(attrs, off, order);
        if len >= RTA_HDRLEN && off + len <= attrs.len() {
            assert(s.subrange(at + RTA_HDRLEN, at + len) =~= attrs.subrange(
                off + RTA_HDRLEN,
                off + len,
            ));
            lemma_attrs_move(before, attrs, off + align4(len), want, order);
        }
    }
}

/// An attribute is read back in the order in which it was written; one of
/// another type is passed over.
pub proof fn attributes_read_back(
    kind: u16,
    text: Seq<u8>,
    more: Seq<u8>,
    want: u16,
    order: ByteOrder,
)
    requires
        text.len() <= 1000,
        !text.contains(0),
    ensures
        kind == want && valid_utf8(text) ==> attr_text(
            attribute(kind, text, order) + more,
            0,
            want,
            order,
        ) == Some(decode_utf8(text)),
        kind != want ==> attr_text(attribute(kind, text, order) + more, 0, want, order)
            == attr_text(more, 0, want, order),
        attr_text(Seq::empty(), 0, want, order) is None,
{
    let len = 5 + text.len() as int;
    let a = attribute(kind, text, order);
    let s = a + more;
    let none = Seq::<u8>::empty();
    let zeros = Seq::new((align4(len) - len + 1) as nat, |i: int| 0u8);
    let l = bytes16(len as u16, order);
    let k = bytes16(kind, order);
    assert(s =~= none + l + (k + text + zeros + more));
    numbers_are_read_in_place(none, len as u16, 0, k + text + zeros + more, order);
    assert(s =~= l + k + (text + zeros + more));
    numbers_are_read_in_place(l, kind, 0, text + zeros + more, order);
    assert(a.len() == align4(len));
    if kind == want {
        let body = s.subrange(4, len);
        assert(body =~= text + seq![0u8]);
        lemma_until_zero(text, seq![0u8]);
    } else {
        lemma_attrs_move(a, more, 0, want, order);
    }
}

/// A message as the kernel writes it: its length, its kind, flags, sequence
/// number and sender, and what it holds.
pub open spec fn netlink_message(
    kind: u16,
    middle: Seq<u8>,
    payload: Seq<u8>,
    order: ByteOrder,
) -> Seq<u8> {
    bytes32((16 + payload.len()) as u32, order) + bytes16(kind, order) + middle + payload
}

/// What stands before messages does not matter for reading them.
proof fn lemma_messages_move(before: Seq<u8>, buf: Seq<u8>, off: int, order: ByteOrder)
    requires
        0 <= off,
    ensures
        ifaces_from(before + buf, before.len() + off, order) == ifaces_from(buf, off, order),
    decreases (if off <= buf.len() {
        buf.len() - off
    } else {
        0
    }),
{
    let s = before + buf;
    let at = before.len() + off;
    if off + NLMSG_HDRLEN <= buf.len() {
        numbers_move_with_their_bytes(before, buf, off, order);
        numbers_move_with_their_bytes(before, buf, off + 4, order);
        let len = num32_at(buf, off, order);
        if len >= NLMSG_HDRLEN && off + len <= buf.len() {
            assert(s.subrange(at + NLMSG_HDRLEN, at + len) =~= buf.subrange(
                off + NLMSG_HDRLEN,
                off + len,
            ));
            lemma_messages_move(before, buf, off + align4(len), order);
        }
    }
}

/// Messages are read back one behind the other, in the order in which they were
/// written.
pub proof fn messages_read_back(
    kind: u16,
    middle: Seq<u8>,
    payload: Seq<u8>,
    more: Seq<u8>,
    order: ByteOrder,
)
    requires
        middle.len() == 10,
        payload.len() <= 0x1_0000,
        payload.len() % 4 == 0,
    ensures
        ifaces_from(netlink_message(kind, middle, payload, order) + more, 0, order) == as_list(
            message_iface(kind as int, payload, order),
        ) + ifaces_from(more, 0, order),
        ifaces_from(Seq::empty(), 0, order).len() == 0,
{
    let m = netlink_message(kind, middle, payload, order);
    let s = m + more;
    let none = Seq::<u8>::empty();
    let len = (16 + payload.len()) as u32;
    let l = bytes32(len, order);
    let k = bytes16(kind, order);
    assert(s =~= none + l + (k + middle + payload + more));
    numbers_are_read_in_place(none, 0, len, k + middle + payload + more, order);
    assert(s =~= l + k + (middle + payload + more));
    numbers_are_read_in_place(l, kind, 0, middle + payload + more, order);
    assert(s.subrange(16, len as int) =~= payload);
    assert(align4(len as int) == len);
    assert(m.len() == len);
    lemma_messages_move(m, more, 0, order);
}

/// A message about a link (16, 17 or 18) or an address (20 or 21) tells the index
/// of its interface, unless that is zero, and its name from the attribute of
/// type 3; other messages tell nothing.
pub proof fn messages_tell_their_interface(
    kind: u16,
    head: Seq<u8>,
    index: u32,
    tail: Seq<u8>,
    attrs: Seq<u8>,
    order: ByteOrder,
)
    requires
        head.len() == 4,
        tail.len() == 8,
    ensures
        ({
            let link = head + bytes32(index, order) + tail + attrs;
            let addr = head + bytes32(index, order) + attrs;
            let name = match attr_text(attrs, 0, 3, order) {
                Some(t) => t,
                None => Seq::empty(),
            };
            &&& 16 <= kind <= 18 && index != 0 ==> message_iface(kind as int, link, order) == Some(
                (index, name),
            )
            &&& 20 <= kind <= 21 && index != 0 ==> message_iface(kind as int, addr, order) == Some(
                (index, name),
            )
            &&& index == 0 ==> message_iface(kind as int, link, order) is None && message_iface(
                kind as int,
                addr,
                order,
            ) is None
            &&& !(16 <= kind <= 18) && !(20 <= kind <= 21) ==> message_iface(
                kind as int,
                link,
                order,
            ) is None
        }),
{
    let i = bytes32(index, order);
    let link = head + i + tail + attrs;
    let addr = head + i + attrs;
    assert(link =~= head + i + (tail + attrs));
    numbers_are_read_in_place(head, 0, index, tail + attrs, order);
    numbers_are_read_in_place(head, 0, index, attrs, order);
    assert(link.skip(16) =~= attrs);
    assert(addr.skip(8) =~= attrs);
}

/// An event matters if its interface does, or if nobody knows its name. A name
/// that the event does not tell is that of the first known interface with its
/// index.
pub proof fn unknown_interfaces_matter(
    index: u32,
    name: Seq<char>,
    allow: Seq<Seq<char>>,
    skip: Seq<Seq<char>>,
    known: Seq<(Seq<char>, Seq<char>)>,
    i: int,
)
    requires
        name.len() > 0,
        0 <= i < known.len(),
        forall|k: int|
            0 <= k < i ==> unsigned_to(trimmed((#[trigger] known[k]).1), 10, 0xffff_ffff) != Some(
                index as nat,
            ),
    ensures
        event_matters((index, name), allow, skip, known) <==> relevant(name, allow, skip),
        event_matters((index, Seq::empty()), allow, skip, Seq::empty()),
        unsigned_to(trimmed(known[i].1), 10, 0xffff_ffff) == Some(index as nat) && known[i].0.len()
            > 0 ==> (event_matters((index, Seq::empty()), allow, skip, known) <==> relevant(
            known[i].0,
            allow,
            skip,
        )),
{
    if unsigned_to(trimmed(known[i].1), 10, 0xffff_ffff) == Some(index as nat) {
        lemma_no_name_before(known, i, index);
        assert(known.take(i + 1).drop_last() =~= known.take(i));
        assert(known.take(i + 1).last() == known[i]);
        lemma_name_found(known, i + 1, index);
    }
}

/// Interfaces with other indexes have no name to offer.
proof fn lemma_no_name_before(known: Seq<(Seq<char>, Seq<char>)>, n: int, index: u32)
    requires
        0 <= n <= known.len(),
        forall|k: int|
            0 <= k < n ==> unsigned_to(trimmed((#[trigger] known[k]).1), 10, 0xffff_ffff) != Some(
                index as nat,
            ),
    ensures
        name_of_index(known.take(n), index) is None,
    decreases n,
{
    if n > 0 {
        lemma_no_name_before(known, n - 1, index);
        assert(known.take(n).drop_last() =~= known.take(n - 1));
        assert(known.take(n).last() == known[n - 1]);
    }
}

/// A change that waits is signaled once a pause of 400 milliseconds has passed,
/// after what else came in was thrown away; then none waits any more. A socket
/// that fails is opened again.
pub proof fn changes_are_signaled_after_a_pause(s: Watcher, now: u64, later: u64)
    requires
        s.phase is Receive,
    ensures
        ({
            let a = watch_next(s, WatchEvent::Received { relevant: true, now });
            let b = watch_next(a, WatchEvent::Received { relevant: false, now: later });
            let c = watch_next(b, WatchEvent::Drained { more: true });
            let d = watch_next(c, WatchEvent::Drained { more: false });
            &&& a.pending && a.phase is Receive
            &&& later < now + 400_000_000 ==> b == a
            &&& later >= now + 400_000_000 ==> {
                &&& b.phase is Drain && c == b
                &&& d.phase is Signal && !d.pending
                &&& watch_next(d, WatchEvent::Signaled { delivered: true }).phase is Receive
                &&& watch_next(d, WatchEvent::Signaled { delivered: false }).phase is Stopped
            }
            &&& watch_next(s, WatchEvent::Failed).phase is Open
        }),
{
}

/// A socket that cannot be opened is tried again after a wait, and that is
/// reported once; one that is opened starts with no change waiting.
pub proof fn opening_is_retried(s: Watcher, now: u64)
    requires
        s.phase is Open,
    ensures
        ({
            let t = watch_next(s, WatchEvent::Opened { ok: true, now });
            let u = watch_next(s, WatchEvent::Opened { ok: false, now });
            &&& t.phase is Receive && !t.pending && !t.warned
            &&& u.phase is Rest && u.warned && u.pending == s.pending
            &&& watch_next(u, WatchEvent::Rested).phase is Open
        }),
{
}

} // verus!
