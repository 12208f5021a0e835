//! Names, interfaces and registrations for mDNS/DNS-SD.
//!
//! Skips docker/veth/br-* interfaces; prefers RUNNING non-loopback addresses.
//! Hostnames are advertised without a leading FQDN — `.local.` is appended.

use vstd::prelude::*;

use crate::error::{Error, ErrorView};
use crate::config::{non_blank, type_base, EntryView, ServiceEntry};
use crate::legacy_unicast::{Addr4View, Addr6View, IfaceAddr4, IfaceAddr6};
use crate::net::{dotted, ipv6_text, lemma_ipv6_text, IpAddr, Ipv4Addr, Ipv6Addr};
use crate::numeral::{
    decimal, decimal_reads_back, hex, hex_reads_back, numbers_are_digits_only, parse_unsigned,
    to_decimal, unsigned_to,
};
use crate::order::{
    compare_text, lemma_sorts_contains, lemma_stable_sorted, lemma_sum_has, pair_views, sort, sorted,
    sorting_keeps_everything, stable_sorted, strictly_sorted, text_le, text_less, text_less_total, text_less_transitive, Rank,
    Ranked,
};
use crate::text::{
    begins, drop_chars, ends, ends_with, join, joined, lemma_lower_trimmed, lemma_strip_end,
    lemma_trimmed_ends, lemma_trimmed_same, lower, lowercase, same, skip_chars, starts_with,
    strip_end, texts, trim, trim_end_char, trimmed,
};
use crate::textmap::{ordered_pairs, TextMap};
use crate::value::{lemma_views_push, opt_view, views, Value};

verus! {

/// A service type with the domain: `_http._tcp` → `_http._tcp.local.`.
pub open spec fn full_type(type_: Seq<char>) -> Seq<char> {
    let t = strip_end(trimmed(type_), '.');
    if ends(t, ".local"@) {
        t + "."@
    } else {
        t + ".local."@
    }
}

/// A host with the domain: `bigfred` and `bigfred.local` → `bigfred.local.`.
pub open spec fn full_host(host: Seq<char>) -> Seq<char> {
    type_base(host) + ".local."@
}

/// The DNS-SD name of an instance of a type.
pub open spec fn full_name(instance: Seq<char>, type_: Seq<char>) -> Seq<char> {
    instance + "."@ + full_type(type_)
}

/// Ensure service type ends with `.local.` (e.g. `_http._tcp` → `_http._tcp.local.`).
pub fn normalize_service_type(type_: &str) -> (r: String)
    ensures
        r@ == full_type(type_@),
{
    let mut t = trim_end_char(trim(type_).as_str(), '.');
    if ends_with(t.as_str(), ".local") {
        t.append(".");
    } else {
        t.append(".local.");
    }
    t
}

/// Ensure hostname ends with `.local.`.
/// Input `"bigfred"` → `"bigfred.local."`; `"bigfred.local"` → `"bigfred.local."`.
pub fn normalize_hostname(host: &str) -> (r: String)
    ensures
        r@ == full_host(host@),
{
    let h = trim_end_char(trim(host).as_str(), '.');
    let mut bare = if ends_with(h.as_str(), ".local") {
        proof {
            reveal_strlit(".local");
        }
        drop_chars(h.as_str(), 6)
    } else {
        h
    };
    bare.append(".local.");
    bare
}

/// Whether a name begins with a configured prefix, whatever the case. A blank
/// prefix matches nothing.
pub open spec fn prefix_hits(name: Seq<char>, prefix: Seq<char>) -> bool {
    trimmed(prefix).len() > 0 && begins(lower(name), lower(trimmed(prefix)))
}

/// Whether a name begins with one of the configured prefixes.
pub open spec fn any_prefix_hits(name: Seq<char>, prefixes: Seq<Seq<char>>) -> bool {
    exists|i: int| 0 <= i < prefixes.len() && prefix_hits(name, #[trigger] prefixes[i])
}

/// Whether an interface is one of the container and bridge interfaces that are
/// never used.
pub open spec fn virtual_iface(name: Seq<char>) -> bool {
    let n = lower(name);
    ||| begins(n, "docker"@)
    ||| begins(n, "veth"@)
    ||| begins(n, "br-"@)
    ||| begins(n, "br0"@)
    ||| n == "cni0"@
    ||| begins(n, "flannel"@)
    ||| begins(n, "virbr"@)
}

/// Whether an interface is passed over.
pub open spec fn skipped(name: Seq<char>, skip: Seq<Seq<char>>) -> bool {
    virtual_iface(name) || any_prefix_hits(name, skip)
}

/// Whether an interface is in the allowlist; an empty one allows all.
pub open spec fn allowed(name: Seq<char>, allow: Seq<Seq<char>>) -> bool {
    allow.len() == 0 || any_prefix_hits(name, allow)
}

/// Whether changes of an interface matter.
pub open spec fn relevant(name: Seq<char>, allow: Seq<Seq<char>>, skip: Seq<Seq<char>>) -> bool {
    name != "lo"@ && !skipped(name, skip) && allowed(name, allow)
}

fn has_prefix(name: &str, prefixes: &[String]) -> (r: bool)
    ensures
        r == any_prefix_hits(name@, texts(prefixes@)),
{
    let n = lowercase(name);
    let ghost all = texts(prefixes@);
    let mut i: usize = 0;
    while i < prefixes.len()
        invariant
            i <= prefixes@.len(),
            all == texts(prefixes@),
            n@ == lower(name@),
            forall|k: int| 0 <= k < i ==> !prefix_hits(name@, #[trigger] all[k]),
        decreases prefixes@.len() - i,
    {
        let p = trim(prefixes[i].as_str());
        if !p.as_str().is_empty() && starts_with(n.as_str(), lowercase(p.as_str()).as_str()) {
            proof {
                assert(prefix_hits(name@, all[i as int]));
            }
            return true;
        }
        i += 1;
    }
    false
}

/// Whether `name` is allowed by the optional allowlist.
///
/// Empty `allow` means every interface is allowed. Otherwise matching is by
/// case-insensitive name **prefix**, same rules as [`should_skip_iface`].
pub fn is_allowed_iface(name: &str, allow: &[String]) -> (r: bool)
    ensures
        r == allowed(name@, texts(allow@)),
{
    allow.len() == 0 || has_prefix(name, allow)
}

/// Whether to skip an interface by name.
///
/// Always skips the built-in container/virtual bridge interfaces
/// (docker/veth/br-*/cni/flannel/virbr). The `skip` list adds extra
/// case-insensitive **prefix** matches from configuration.
pub fn should_skip_iface(name: &str, skip: &[String]) -> (r: bool)
    ensures
        r == skipped(name@, texts(skip@)),
{
    let n = lowercase(name);
    let s = n.as_str();
    if starts_with(s, "docker") || starts_with(s, "veth") || starts_with(s, "br-") || starts_with(
        s,
        "br0",
    ) || same(s, "cni0") || starts_with(s, "flannel") || starts_with(s, "virbr") {
        return true;
    }
    has_prefix(name, skip)
}

/// Whether changes of an interface matter: not loopback, not skipped, allowed.
pub fn iface_name_relevant(name: &str, allow: &[String], skip: &[String]) -> (r: bool)
    ensures
        r == relevant(name@, texts(allow@), texts(skip@)),
{
    !same(name, "lo") && !should_skip_iface(name, skip) && is_allowed_iface(name, allow)
}

/// Interface flag: resources allocated (carrier).
pub const IFF_RUNNING: u32 = 0x40;

/// Interface flag: loopback.
pub const IFF_LOOPBACK: u32 = 0x8;

/// Whether a link is live: it runs, or its operational state is "up".
pub open spec fn link_ready(flags: u32, operstate: Seq<char>) -> bool {
    flags & IFF_RUNNING != 0 || lower(operstate) == "up"@
}

/// Whether the link is usable for mDNS: `IFF_RUNNING` or `operstate == "up"`.
///
/// `IFF_UP` alone is not enough — after suspend a Wi‑Fi NIC often stays
/// administratively up with `operstate=dormant` and a stale DHCP address.
pub fn iface_link_ready(flags_val: u32, operstate: &str) -> (r: bool)
    ensures
        r == link_ready(flags_val, operstate@),
{
    flags_val & IFF_RUNNING != 0 || same(lowercase(operstate).as_str(), "up")
}

/// One network interface.
#[derive(Debug)]
pub struct IfaceInfo {
    pub name: String,
    pub is_up: bool,
    pub is_loopback: bool,
    pub ifindex: u32,
    /// Addresses with their netmasks.
    pub ipv4: Vec<(Ipv4Addr, Ipv4Addr)>,
    pub ipv6: Vec<Ipv6Addr>,
}

/// The text without any leading runs of `0x`.
pub open spec fn strip_hex_marks(s: Seq<char>) -> Seq<char>
    decreases s.len(),
{
    if begins(s, "0x"@) && s.len() >= 2 {
        strip_hex_marks(s.skip(2))
    } else {
        s
    }
}

/// The flags in the text of a `flags` file, zero where it cannot be read.
pub open spec fn flags_in(text: Seq<char>) -> nat {
    match unsigned_to(strip_hex_marks(trimmed(text)), 16, 0xffff_ffff) {
        Some(v) => v,
        None => 0,
    }
}

/// The index in the text of an `ifindex` file, zero where it cannot be read.
pub open spec fn ifindex_in(text: Option<Seq<char>>) -> nat {
    match text {
        Some(t) => match unsigned_to(trimmed(t), 10, 0xffff_ffff) {
            Some(v) => v,
            None => 0,
        },
        None => 0,
    }
}

/// Reads the flags of an interface.
fn read_flags(text: &str) -> (r: u32)
    ensures
        r == flags_in(text@),
{
    let mut t = trim(text);
    proof {
        reveal_strlit("0x");
    }
    while starts_with(t.as_str(), "0x")
        invariant
            strip_hex_marks(t@) == strip_hex_marks(trimmed(text@)),
            "0x"@.len() == 2,
        decreases t@.len(),
    {
        t = skip_chars(t.as_str(), 2);
    }
    match parse_unsigned(t.as_str(), 16, 0xffff_ffff) {
        Some(v) => v as u32,
        None => 0,
    }
}

/// Puts an interface together from the texts that the kernel shows for it.
pub fn iface_info(
    name: String,
    operstate: &str,
    flags: &str,
    ifindex: Option<&str>,
    ipv4: Vec<(Ipv4Addr, Ipv4Addr)>,
    ipv6: Vec<Ipv6Addr>,
) -> (r: IfaceInfo)
    ensures
        r.name@ == name@,
        r.is_up == link_ready(flags_in(flags@) as u32, trimmed(operstate@)),
        r.is_loopback == ((flags_in(flags@) as u32) & IFF_LOOPBACK != 0 || name@ == "lo"@),
        r.ifindex == ifindex_in(
            match ifindex {
                Some(t) => Some(t@),
                None => None,
            },
        ),
        r.ipv4 == ipv4,
        r.ipv6 == ipv6,
{
    let flags_val: u32 = read_flags(flags);
    let is_up = iface_link_ready(flags_val, trim(operstate).as_str());
    let is_loopback = flags_val & IFF_LOOPBACK != 0 || same(name.as_str(), "lo");
    let index: u32 = match ifindex {
        Some(t) => match parse_unsigned(trim(t).as_str(), 10, 0xffff_ffff) {
            Some(v) => v as u32,
            None => 0,
        },
        None => 0,
    };
    IfaceInfo { name, is_up, is_loopback, ifindex: index, ipv4, ipv6 }
}

/// One address of an interface, as the kernel lists it.
#[derive(Debug)]
pub enum RawAddr {
    /// An IPv4 address with its netmask, where there is one.
    V4 { iface: String, addr: Ipv4Addr, mask: Option<Ipv4Addr> },
    V6 { iface: String, addr: Ipv6Addr },
}

/// The IPv4 addresses of an interface with their netmasks, in the order of the
/// list; the netmask is 255.255.255.0 where none is given.
pub open spec fn listed4(name: Seq<char>, entries: Seq<RawAddr>) -> Seq<(Ipv4Addr, Ipv4Addr)>
    decreases entries.len(),
{
    if entries.len() == 0 {
        Seq::empty()
    } else {
        let before = listed4(name, entries.drop_last());
        match entries.last() {
            RawAddr::V4 { iface, addr, mask } if iface@ == name => before.push(
                (
                    addr,
                    match mask {
                        Some(m) => m,
                        None => Ipv4Addr { bits: 0xffff_ff00 },
                    },
                ),
            ),
            _ => before,
        }
    }
}

/// The IPv6 addresses of an interface, in the order of the list.
pub open spec fn listed6(name: Seq<char>, entries: Seq<RawAddr>) -> Seq<Ipv6Addr>
    decreases entries.len(),
{
    if entries.len() == 0 {
        Seq::empty()
    } else {
        let before = listed6(name, entries.drop_last());
        match entries.last() {
            RawAddr::V6 { iface, addr } if iface@ == name => before.push(addr),
            _ => before,
        }
    }
}

/// The addresses of an interface among all addresses.
pub fn addrs_for_iface(name: &str, entries: &[RawAddr]) -> (r: (
    Vec<(Ipv4Addr, Ipv4Addr)>,
    Vec<Ipv6Addr>,
))
    ensures
        r.0@ == listed4(name@, entries@),
        r.1@ == listed6(name@, entries@),
{
    let mut ipv4: Vec<(Ipv4Addr, Ipv4Addr)> = Vec::new();
    let mut ipv6: Vec<Ipv6Addr> = Vec::new();
    let mut i: usize = 0;
    proof {
        assert(ipv4@ =~= listed4(name@, entries@.take(0)));
        assert(ipv6@ =~= listed6(name@, entries@.take(0)));
    }
    while i < entries.len()
        invariant
            i <= entries@.len(),
            ipv4@ == listed4(name@, entries@.take(i as int)),
            ipv6@ == listed6(name@, entries@.take(i as int)),
        decreases entries@.len() - i,
    {
        proof {
            assert(entries@.take(i + 1).drop_last() =~= entries@.take(i as int));
        }
        match &entries[i] {
            RawAddr::V4 { iface, addr, mask } => {
                if same(iface.as_str(), name) {
                    let m = match mask {
                        Some(m) => *m,
                        None => Ipv4Addr { bits: 0xffff_ff00 },
                    };
                    ipv4.push((*addr, m));
                }
            },
            RawAddr::V6 { iface, addr } => {
                if same(iface.as_str(), name) {
                    ipv6.push(*addr);
                }
            },
        }
        i += 1;
    }
    proof {
        assert(entries@.take(i as int) =~= entries@);
    }
    (ipv4, ipv6)
}

/// What the kernel shows of one interface.
#[derive(Debug)]
pub struct RawIface {
    pub name: String,
    pub operstate: String,
    pub flags: String,
    pub ifindex: Option<String>,
}

/// Whether an interface was put together from what the kernel shows of it.
pub open spec fn info_of(raw: RawIface, addrs: Seq<RawAddr>, info: IfaceInfo) -> bool {
    let flags = flags_in(raw.flags@) as u32;
    &&& info.name@ == raw.name@
    &&& info.is_up == link_ready(flags, trimmed(raw.operstate@))
    &&& info.is_loopback == (flags & IFF_LOOPBACK != 0 || raw.name@ == "lo"@)
    &&& info.ifindex == ifindex_in(opt_view(raw.ifindex))
    &&& info.ipv4@ == listed4(raw.name@, addrs)
    &&& info.ipv6@ == listed6(raw.name@, addrs)
}

/// Puts the interfaces together from what the kernel shows of them.
pub fn list_interfaces(raw: &[RawIface], addrs: &[RawAddr]) -> (r: Vec<IfaceInfo>)
    ensures
        r@.len() == raw@.len(),
        forall|i: int| 0 <= i < raw@.len() ==> info_of(raw@[i], addrs@, #[trigger] r@[i]),
{
    let mut out: Vec<IfaceInfo> = Vec::new();
    let mut i: usize = 0;
    while i < raw.len()
        invariant
            i == out@.len() <= raw@.len(),
            forall|k: int| 0 <= k < i ==> info_of(raw@[k], addrs@, #[trigger] out@[k]),
        decreases raw@.len() - i,
    {
        let entry = &raw[i];
        let (ipv4, ipv6) = addrs_for_iface(entry.name.as_str(), addrs);
        let index = match &entry.ifindex {
            Some(t) => Some(t.as_str()),
            None => None,
        };
        let info = iface_info(
            entry.name.copied(),
            entry.operstate.as_str(),
            entry.flags.as_str(),
            index,
            ipv4,
            ipv6,
        );
        out.push(info);
        i += 1;
    }
    out
}

/// Whether an interface is used for mDNS.
pub open spec fn usable(iface: IfaceInfo, allow: Seq<Seq<char>>, skip: Seq<Seq<char>>) -> bool {
    !skipped(iface.name@, skip) && allowed(iface.name@, allow) && iface.is_up
        && !iface.is_loopback
}

fn iface_usable(iface: &IfaceInfo, allow: &[String], skip: &[String]) -> (r: bool)
    ensures
        r == usable(*iface, texts(allow@), texts(skip@)),
{
    !should_skip_iface(iface.name.as_str(), skip) && is_allowed_iface(iface.name.as_str(), allow)
        && iface.is_up && !iface.is_loopback
}

/// Whether an IPv4 address is worth advertising.
pub open spec fn good4(ip: Ipv4Addr) -> bool {
    ip.bits / 0x100_0000 != 127 && ip.bits != 0
}

/// Whether an IPv6 address is worth advertising: neither loopback nor
/// unspecified nor link-local.
pub open spec fn good6(ip: Ipv6Addr) -> bool {
    ip.bits > 1 && ip.bits / 0x40_0000_0000_0000_0000_0000_0000_0000 != 0x3fa
}

/// The first `n` IPv4 addresses of an interface that are worth advertising.
pub open spec fn iface_addrs4(iface: IfaceInfo, n: nat) -> Seq<Addr4View>
    decreases n,
{
    if n == 0 {
        Seq::empty()
    } else {
        let before = iface_addrs4(iface, (n - 1) as nat);
        let (addr, mask) = iface.ipv4@[n - 1];
        if good4(addr) {
            before.push(
                Addr4View { iface: iface.name@, addr, mask, ifindex: iface.ifindex },
            )
        } else {
            before
        }
    }
}

/// The first `n` IPv6 addresses of an interface that are worth advertising.
pub open spec fn iface_addrs6(iface: IfaceInfo, n: nat) -> Seq<Addr6View>
    decreases n,
{
    if n == 0 {
        Seq::empty()
    } else {
        let before = iface_addrs6(iface, (n - 1) as nat);
        let addr = iface.ipv6@[n - 1];
        if good6(addr) {
            before.push(Addr6View { iface: iface.name@, addr, ifindex: iface.ifindex })
        } else {
            before
        }
    }
}

/// The IPv4 addresses of the usable interfaces, in the order of the interfaces.
pub open spec fn found4(
    ifaces: Seq<IfaceInfo>,
    allow: Seq<Seq<char>>,
    skip: Seq<Seq<char>>,
) -> Seq<Addr4View>
    decreases ifaces.len(),
{
    if ifaces.len() == 0 {
        Seq::empty()
    } else {
        let before = found4(ifaces.drop_last(), allow, skip);
        if usable(ifaces.last(), allow, skip) {
            before + iface_addrs4(ifaces.last(), ifaces.last().ipv4@.len())
        } else {
            before
        }
    }
}

/// The IPv6 addresses of the usable interfaces, in the order of the interfaces.
pub open spec fn found6(
    ifaces: Seq<IfaceInfo>,
    allow: Seq<Seq<char>>,
    skip: Seq<Seq<char>>,
) -> Seq<Addr6View>
    decreases ifaces.len(),
{
    if ifaces.len() == 0 {
        Seq::empty()
    } else {
        let before = found6(ifaces.drop_last(), allow, skip);
        if usable(ifaces.last(), allow, skip) {
            before + iface_addrs6(ifaces.last(), ifaces.last().ipv6@.len())
        } else {
            before
        }
    }
}

/// The indexes of the usable interfaces that have an address and an index.
pub open spec fn found_indexes(
    ifaces: Seq<IfaceInfo>,
    allow: Seq<Seq<char>>,
    skip: Seq<Seq<char>>,
) -> Seq<u32>
    decreases ifaces.len(),
{
    if ifaces.len() == 0 {
        Seq::empty()
    } else {
        let before = found_indexes(ifaces.drop_last(), allow, skip);
        let l = ifaces.last();
        if usable(l, allow, skip) && (l.ipv4@.len() > 0 || l.ipv6@.len() > 0) && l.ifindex != 0 {
            before.push(l.ifindex)
        } else {
            before
        }
    }
}

impl Ranked for IfaceAddr4 {
    /// By interface name, then by address.
    open spec fn le(a: Addr4View, b: Addr4View) -> bool {
        text_less(a.iface, b.iface) || (a.iface == b.iface && a.addr.bits <= b.addr.bits)
    }

    proof fn le_total(a: Addr4View, b: Addr4View) {
        text_less_total(a.iface, b.iface);
    }

    proof fn le_transitive(a: Addr4View, b: Addr4View, c: Addr4View) {
        if text_less(a.iface, b.iface) && text_less(b.iface, c.iface) {
            text_less_transitive(a.iface, b.iface, c.iface);
        }
    }

    fn at_most(&self, other: &Self) -> (r: bool) {
        proof {
            text_less_total(self.iface@, other.iface@);
            text_less_total(other.iface@, self.iface@);
        }
        match compare_text(self.iface.as_str(), other.iface.as_str()) {
            Rank::Less => true,
            Rank::Equal => self.addr.bits <= other.addr.bits,
            Rank::Greater => false,
        }
    }
}

impl Ranked for IfaceAddr6 {
    /// By interface name, then by address.
    open spec fn le(a: Addr6View, b: Addr6View) -> bool {
        text_less(a.iface, b.iface) || (a.iface == b.iface && a.addr.bits <= b.addr.bits)
    }

    proof fn le_total(a: Addr6View, b: Addr6View) {
        text_less_total(a.iface, b.iface);
    }

    proof fn le_transitive(a: Addr6View, b: Addr6View, c: Addr6View) {
        if text_less(a.iface, b.iface) && text_less(b.iface, c.iface) {
            text_less_transitive(a.iface, b.iface, c.iface);
        }
    }

    fn at_most(&self, other: &Self) -> (r: bool) {
        proof {
            text_less_total(self.iface@, other.iface@);
            text_less_total(other.iface@, self.iface@);
        }
        match compare_text(self.iface.as_str(), other.iface.as_str()) {
            Rank::Less => true,
            Rank::Equal => self.addr.bits <= other.addr.bits,
            Rank::Greater => false,
        }
    }
}

/// The IPv4 addresses of the usable interfaces, by interface name and address.
pub open spec fn best4(
    ifaces: Seq<IfaceInfo>,
    allow: Seq<Seq<char>>,
    skip: Seq<Seq<char>>,
) -> Seq<Addr4View> {
    stable_sorted::<IfaceAddr4>(found4(ifaces, allow, skip))
}

/// The IPv6 addresses of the usable interfaces, by interface name and address.
pub open spec fn best6(
    ifaces: Seq<IfaceInfo>,
    allow: Seq<Seq<char>>,
    skip: Seq<Seq<char>>,
) -> Seq<Addr6View> {
    stable_sorted::<IfaceAddr6>(found6(ifaces, allow, skip))
}

/// Appends the IPv4 addresses of an interface that are worth advertising.
fn push_addrs4(out: &mut Vec<IfaceAddr4>, iface: &IfaceInfo)
    ensures
        views(final(out)@) == views(old(out)@) + iface_addrs4(*iface, iface.ipv4@.len()),
{
    let ghost start = views(out@);
    let mut i: usize = 0;
    proof {
        assert(start + iface_addrs4(*iface, 0) =~= start);
    }
    while i < iface.ipv4.len()
        invariant
            i <= iface.ipv4@.len(),
            views(out@) == start + iface_addrs4(*iface, i as nat),
        decreases iface.ipv4@.len() - i,
    {
        let (addr, mask) = iface.ipv4[i];
        if !addr.is_loopback() && !addr.is_unspecified() {
            let ghost before = out@;
            out.push(
                IfaceAddr4 { iface: iface.name.copied(), addr, mask, ifindex: iface.ifindex },
            );
            proof {
                lemma_views_push(before, out@.last());
                assert(before.push(out@.last()) =~= out@);
                assert(views(out@) =~= start + iface_addrs4(*iface, (i + 1) as nat));
            }
        }
        i += 1;
    }
}

/// Appends the IPv6 addresses of an interface that are worth advertising.
fn push_addrs6(out: &mut Vec<IfaceAddr6>, iface: &IfaceInfo)
    ensures
        views(final(out)@) == views(old(out)@) + iface_addrs6(*iface, iface.ipv6@.len()),
{
    let ghost start = views(out@);
    let mut i: usize = 0;
    proof {
        assert(start + iface_addrs6(*iface, 0) =~= start);
    }
    while i < iface.ipv6.len()
        invariant
            i <= iface.ipv6@.len(),
            views(out@) == start + iface_addrs6(*iface, i as nat),
        decreases iface.ipv6@.len() - i,
    {
        let addr = iface.ipv6[i];
        if !addr.is_loopback() && !addr.is_unspecified() && !addr.is_link_local() {
            let ghost before = out@;
            out.push(IfaceAddr6 { iface: iface.name.copied(), addr, ifindex: iface.ifindex });
            proof {
                lemma_views_push(before, out@.last());
                assert(before.push(out@.last()) =~= out@);
                assert(views(out@) =~= start + iface_addrs6(*iface, (i + 1) as nat));
            }
        }
        i += 1;
    }
}

/// Preferred IPv4 addresses with netmasks and ifindex (for per-iface replies),
/// by interface name and address.
pub fn preferred_ipv4_ifaces(ifaces: &[IfaceInfo], allow: &[String], skip: &[String]) -> (r: Vec<
    IfaceAddr4,
>)
    ensures
        views(r@) == best4(ifaces@, texts(allow@), texts(skip@)),
{
    let ghost a = texts(allow@);
    let ghost s = texts(skip@);
    let mut out: Vec<IfaceAddr4> = Vec::new();
    let mut i: usize = 0;
    proof {
        assert(views(out@) =~= found4(ifaces@.take(0), a, s));
    }
    while i < ifaces.len()
        invariant
            i <= ifaces@.len(),
            a == texts(allow@),
            s == texts(skip@),
            views(out@) == found4(ifaces@.take(i as int), a, s),
        decreases ifaces@.len() - i,
    {
        proof {
            assert(ifaces@.take(i + 1).drop_last() =~= ifaces@.take(i as int));
        }
        if iface_usable(&ifaces[i], allow, skip) {
            push_addrs4(&mut out, &ifaces[i]);
        }
        i += 1;
    }
    proof {
        assert(ifaces@.take(i as int) =~= ifaces@);
    }
    sort(&mut out);
    out
}

/// Preferred global/ULA IPv6 addresses with ifindex (no loopback/unspecified/link-local),
/// by interface name and address.
pub fn preferred_ipv6_addrs(ifaces: &[IfaceInfo], allow: &[String], skip: &[String]) -> (r: Vec<
    IfaceAddr6,
>)
    ensures
        views(r@) == best6(ifaces@, texts(allow@), texts(skip@)),
{
    let ghost a = texts(allow@);
    let ghost s = texts(skip@);
    let mut out: Vec<IfaceAddr6> = Vec::new();
    let mut i: usize = 0;
    proof {
        assert(views(out@) =~= found6(ifaces@.take(0), a, s));
    }
    while i < ifaces.len()
        invariant
            i <= ifaces@.len(),
            a == texts(allow@),
            s == texts(skip@),
            views(out@) == found6(ifaces@.take(i as int), a, s),
        decreases ifaces@.len() - i,
    {
        proof {
            assert(ifaces@.take(i + 1).drop_last() =~= ifaces@.take(i as int));
        }
        if iface_usable(&ifaces[i], allow, skip) {
            push_addrs6(&mut out, &ifaces[i]);
        }
        i += 1;
    }
    proof {
        assert(ifaces@.take(i as int) =~= ifaces@);
    }
    sort(&mut out);
    out
}

/// Interface indexes for multicast group joins (IPv6).
pub fn preferred_iface_indexes(ifaces: &[IfaceInfo], allow: &[String], skip: &[String]) -> (r: Vec<
    u32,
>)
    ensures
        r@ == found_indexes(ifaces@, texts(allow@), texts(skip@)),
{
    let ghost a = texts(allow@);
    let ghost s = texts(skip@);
    let mut out: Vec<u32> = Vec::new();
    let mut i: usize = 0;
    proof {
        assert(out@ =~= found_indexes(ifaces@.take(0), a, s));
    }
    while i < ifaces.len()
        invariant
            i <= ifaces@.len(),
            a == texts(allow@),
            s == texts(skip@),
            out@ == found_indexes(ifaces@.take(i as int), a, s),
        decreases ifaces@.len() - i,
    {
        proof {
            assert(ifaces@.take(i + 1).drop_last() =~= ifaces@.take(i as int));
        }
        let iface = &ifaces[i];
        if iface_usable(iface, allow, skip) && (iface.ipv4.len() > 0 || iface.ipv6.len() > 0)
            && iface.ifindex != 0 {
            out.push(iface.ifindex);
        }
        i += 1;
    }
    proof {
        assert(ifaces@.take(i as int) =~= ifaces@);
    }
    out
}

/// The addresses of a list of address views.
pub open spec fn plain4(s: Seq<Addr4View>) -> Seq<Ipv4Addr> {
    s.map_values(|a: Addr4View| a.addr)
}

/// The addresses of a list.
pub fn ipv4_addrs(v4: &[IfaceAddr4]) -> (r: Vec<Ipv4Addr>)
    ensures
        r@ == plain4(views(v4@)),
{
    let ghost all = views(v4@);
    let mut out: Vec<Ipv4Addr> = Vec::new();
    let mut i: usize = 0;
    while i < v4.len()
        invariant
            i == out@.len() <= v4@.len(),
            all == views(v4@),
            forall|k: int| 0 <= k < i ==> #[trigger] out@[k] == all[k].addr,
        decreases v4@.len() - i,
    {
        out.push(v4[i].addr);
        i += 1;
    }
    proof {
        assert(out@ =~= plain4(all));
    }
    out
}

/// The addresses of a list of address views.
pub open spec fn plain6(s: Seq<Addr6View>) -> Seq<Ipv6Addr> {
    s.map_values(|a: Addr6View| a.addr)
}

/// The addresses of a list.
pub fn ipv6_addrs(v6: &[IfaceAddr6]) -> (r: Vec<Ipv6Addr>)
    ensures
        r@ == plain6(views(v6@)),
{
    let ghost all = views(v6@);
    let mut out: Vec<Ipv6Addr> = Vec::new();
    let mut i: usize = 0;
    while i < v6.len()
        invariant
            i == out@.len() <= v6@.len(),
            all == views(v6@),
            forall|k: int| 0 <= k < i ==> #[trigger] out@[k] == all[k].addr,
        decreases v6@.len() - i,
    {
        out.push(v6[i].addr);
        i += 1;
    }
    proof {
        assert(out@ =~= plain6(all));
    }
    out
}

/// Collect preferred IPv4 addresses: running, non-loopback, allowlisted, not skipped.
pub fn preferred_ipv4_addrs(ifaces: &[IfaceInfo], allow: &[String], skip: &[String]) -> (r: Vec<
    Ipv4Addr,
>)
    ensures
        r@ == plain4(best4(ifaces@, texts(allow@), texts(skip@))),
{
    ipv4_addrs(&preferred_ipv4_ifaces(ifaces, allow, skip))
}

/// Check whether any preferred interface currently has an IPv4 address.
pub fn has_usable_iface(ifaces: &[IfaceInfo], allow: &[String], skip: &[String]) -> (r: bool)
    ensures
        r == (best4(ifaces@, texts(allow@), texts(skip@)).len() > 0),
{
    preferred_ipv4_ifaces(ifaces, allow, skip).len() > 0
}

/// Return first preferred IP as [`IpAddr`], if any.
pub fn primary_ip(ifaces: &[IfaceInfo], allow: &[String], skip: &[String]) -> (r: Option<IpAddr>)
    ensures
        ({
            let best = best4(ifaces@, texts(allow@), texts(skip@));
            r == (if best.len() > 0 {
                Some(IpAddr::V4(best[0].addr))
            } else {
                None
            })
        }),
{
    let v4 = preferred_ipv4_ifaces(ifaces, allow, skip);
    if v4.len() > 0 {
        proof {
            assert(views(v4@)[0].addr == v4@[0].addr);
        }
        Some(IpAddr::V4(v4[0].addr))
    } else {
        None
    }
}

/// The TXT record of a dcc-bus service.
pub open spec fn dcc_txt(
    protocol: Seq<char>,
    layout_id: u32,
    command_station_id: u32,
    layout_name: Seq<char>,
    serial: Option<u32>,
) -> Map<Seq<char>, Seq<char>> {
    let base = Map::<Seq<char>, Seq<char>>::empty().insert("proto"@, protocol).insert(
        "layoutId"@,
        decimal(layout_id as nat),
    ).insert("commandStationId"@, decimal(command_station_id as nat));
    let named = if layout_name.len() > 0 {
        base.insert("layoutName"@, layout_name)
    } else {
        base
    };
    match serial {
        Some(n) => named.insert("serial"@, decimal(n as nat)),
        None => named,
    }
}

/// Helper to register a dynamic dcc-bus service (`_z21._udp` / `_withrottle._tcp`).
///
/// TXT: `layoutId`, `commandStationId`, `proto`, optional `layoutName`, and for
/// Z21 also `serial`. A blank host counts as none.
pub fn dcc_service_entry(
    instance: &str,
    type_: &str,
    protocol: &str,
    port: u16,
    layout_id: u32,
    command_station_id: u32,
    layout_name: &str,
    serial: Option<u32>,
    host: Option<&str>,
) -> (r: ServiceEntry)
    ensures
        r@ == (EntryView {
            name: instance@,
            type_: type_@,
            protocol: protocol@,
            port,
            host: non_blank(
                match host {
                    Some(h) => Some(h@),
                    None => None,
                },
            ),
            txt: Some(dcc_txt(protocol@, layout_id, command_station_id, layout_name@, serial)),
        }),
{
    let mut txt: TextMap<String> = TextMap::new();
    txt.insert("proto".to_owned(), protocol.to_owned());
    txt.insert("layoutId".to_owned(), to_decimal(layout_id as u64));
    txt.insert("commandStationId".to_owned(), to_decimal(command_station_id as u64));
    if !layout_name.is_empty() {
        txt.insert("layoutName".to_owned(), layout_name.to_owned());
    }
    if let Some(n) = serial {
        txt.insert("serial".to_owned(), to_decimal(n as u64));
    }
    let advertised = match host {
        Some(h) => {
            let t = trim(h);
            if t.as_str().is_empty() {
                None
            } else {
                Some(t)
            }
        },
        None => None,
    };
    ServiceEntry {
        name: instance.to_owned(),
        type_: type_.to_owned(),
        protocol: protocol.to_owned(),
        port,
        host: advertised,
        txt: Some(txt),
    }
}

/// When each service was last announced: clock readings in nanoseconds.
#[derive(Debug, PartialEq, Eq)]
pub struct AnnounceLog {
    last: TextMap<u64>,
}

impl View for AnnounceLog {
    type V = Map<Seq<char>, u64>;

    closed spec fn view(&self) -> Map<Seq<char>, u64> {
        self.last@
    }
}

impl AnnounceLog {
    /// The announcements in the order of their names.
    pub closed spec fn snapshot_listing(&self) -> Seq<(Seq<char>, u64)> {
        self.last.listing()
    }

    /// No announcements yet.
    pub fn new() -> (r: Self)
        ensures
            r@ == Map::<Seq<char>, u64>::empty(),
    {
        AnnounceLog { last: TextMap::new() }
    }

    /// Notes that a service was announced.
    pub fn record(&mut self, fullname: &str, now: u64)
        ensures
            final(self)@ == old(self)@.insert(fullname@, now),
    {
        self.last.insert(fullname.to_owned(), now);
    }

    /// The last announcement of each service.
    pub fn snapshot(&self) -> (r: &TextMap<u64>)
        ensures
            r@ == self@,
            r.listing() == self.snapshot_listing(),
    {
        &self.last
    }
}

/// An instance name as it stands in a DNS-SD name: dots and backslashes with a
/// backslash before them.
pub open spec fn escaped(name: Seq<char>) -> Seq<char>
    decreases name.len(),
{
    if name.len() == 0 {
        Seq::empty()
    } else {
        let before = escaped(name.drop_last());
        let c = name.last();
        if c == '.' || c == '\\' {
            before.push('\\').push(c)
        } else {
            before.push(c)
        }
    }
}

/// Whether the marker of a subtype stands at `i`.
pub open spec fn subtype_at(type_: Seq<char>, i: int) -> bool {
    0 <= i && i + 6 <= type_.len() && type_.subrange(i, i + 6) == "._sub."@
}

/// A service type without its subtype: what stands behind the last marker.
pub open spec fn without_subtype(type_: Seq<char>) -> Seq<char> {
    if exists|i: int| subtype_at(type_, i) {
        let last = choose|i: int|
            subtype_at(type_, i) && forall|j: int| #[trigger] subtype_at(type_, j) ==> j <= i;
        type_.skip(last + 6)
    } else {
        type_
    }
}

/// The name under which the mDNS daemon keeps a service.
pub open spec fn daemon_name(instance: Seq<char>, full_type: Seq<char>) -> Seq<char> {
    escaped(instance) + "."@ + without_subtype(full_type)
}

/// Whether one TXT property can be published: an ASCII key without `=`, and at
/// most 255 bytes in all.
pub open spec fn txt_fits(pair: (Seq<char>, Seq<char>)) -> bool {
    &&& vstd::utf8::is_ascii_chars(pair.0)
    &&& !pair.0.contains('=')
    &&& vstd::utf8::encode_utf8(pair.0).len() + 1 + vstd::utf8::encode_utf8(pair.1).len() <= 255
}

/// Whether every TXT property can be published.
pub open spec fn txt_all_fit(txt: Seq<(Seq<char>, Seq<char>)>) -> bool {
    forall|i: int| 0 <= i < txt.len() ==> txt_fits(#[trigger] txt[i])
}

/// The message with which `ServiceInfo::new` refuses a service, if it does.
pub uninterp spec fn info_refusal(
    full_type: Seq<char>,
    instance: Seq<char>,
    host: Seq<char>,
    addresses: Seq<char>,
    port: u16,
    txt: Seq<(Seq<char>, Seq<char>)>,
) -> Option<Seq<char>>;

/// The description of a service that the mDNS daemon takes.
#[verifier::external_type_specification]
#[verifier::external_body]
pub struct ExServiceInfo(mdns_sd::ServiceInfo);

/// What a description of a service holds.
#[verifier::ext_equal]
pub struct InfoView {
    /// The name under which the daemon keeps the service.
    pub fullname: Seq<char>,
    pub host: Seq<char>,
    pub v4: Set<Ipv4Addr>,
    pub v6: Set<Ipv6Addr>,
    pub port: u16,
    pub txt: Seq<(Seq<char>, Seq<char>)>,
    /// Whether the daemon fills in the addresses of the machine.
    pub auto: bool,
}

/// What a description of a service holds.
pub uninterp spec fn info_holds(info: mdns_sd::ServiceInfo) -> InfoView;

/// The host of a service as the mDNS daemon keeps it: the domain once where it
/// stands twice.
pub open spec fn daemon_host(host: Seq<char>) -> Seq<char> {
    if ends(host, ".local.local."@) {
        host.take(host.len() - 6)
    } else {
        host
    }
}

/// Whether a description holds what it was made from.
pub open spec fn made_from(
    info: InfoView,
    full_type: Seq<char>,
    instance: Seq<char>,
    host: Seq<char>,
    addresses: Seq<char>,
    port: u16,
    txt: Seq<(Seq<char>, Seq<char>)>,
) -> bool {
    &&& info.fullname == daemon_name(instance, full_type)
    &&& info.host == daemon_host(host)
    &&& forall|v4: Seq<Ipv4Addr>, v6: Seq<Ipv6Addr>|
        addresses == #[trigger] address_text(v4, v6) ==> info.v4 == v4.to_set() && info.v6
            == v6.to_set()
    &&& info.port == port
    &&& info.txt == txt
}

/// Calls `mdns_sd::ServiceInfo::new`, with the TXT properties in the given
/// order.
///
/// Claimed: it fails exactly with the message that [`info_refusal`] names; it
/// never accepts a TXT property that does not fit; given addresses in their
/// usual notation, or none, it refuses nothing else. The description holds the
/// escaped instance before the type without its subtype as its name, the host
/// with its domain once, the addresses, the port and the TXT properties; the
/// daemon does not fill in addresses.
#[verifier::external_body]
fn new_service_info(
    full_type: &str,
    instance: &str,
    host: &str,
    addresses: &str,
    port: u16,
    txt: &[(String, String)],
) -> (r: Result<mdns_sd::ServiceInfo, String>)
    ensures
        match r {
            Ok(info) => {
                &&& info_refusal(
                    full_type@,
                    instance@,
                    host@,
                    addresses@,
                    port,
                    pair_views(txt@),
                ) is None
                &&& txt_all_fit(pair_views(txt@))
                &&& made_from(
                    info_holds(info),
                    full_type@,
                    instance@,
                    host@,
                    addresses@,
                    port,
                    pair_views(txt@),
                )
                &&& !info_holds(info).auto
            },
            Err(m) => {
                &&& info_refusal(
                    full_type@,
                    instance@,
                    host@,
                    addresses@,
                    port,
                    pair_views(txt@),
                ) == Some(m@)
                &&& forall|v4: Seq<Ipv4Addr>, v6: Seq<Ipv6Addr>|
                    addresses@ == #[trigger] address_text(v4, v6) ==> !txt_all_fit(
                        pair_views(txt@),
                    )
            },
        },
{
    let props: Vec<mdns_sd::TxtProperty> = txt
        .iter()
        .map(|p| mdns_sd::TxtProperty::from((p.0.as_str(), p.1.as_bytes())))
        .collect();
    match mdns_sd::ServiceInfo::new(full_type, instance, host, addresses, port, props) {
        Ok(info) => Ok(info),
        Err(e) => Err(e.to_string()),
    }
}

/// `ServiceInfo::enable_addr_auto` lets the daemon fill in the addresses of the
/// machine and leaves the rest of the description as it is.
pub assume_specification[ mdns_sd::ServiceInfo::enable_addr_auto ](
    info: mdns_sd::ServiceInfo,
) -> (r: mdns_sd::ServiceInfo)
    ensures
        info_holds(r) == (InfoView { auto: true, ..info_holds(info) }),
;

/// `ServiceInfo::get_fullname` reads the name under which the daemon keeps the
/// service.
pub assume_specification[ mdns_sd::ServiceInfo::get_fullname ](
    info: &mdns_sd::ServiceInfo,
) -> (r: &str)
    ensures
        r@ == info_holds(*info).fullname,
;

/// The text of addresses for a service: IPv6 before IPv4, separated by commas.
pub open spec fn address_text(v4: Seq<Ipv4Addr>, v6: Seq<Ipv6Addr>) -> Seq<char> {
    joined(show6(v6) + show4(v4), ","@)
}

/// The text of addresses is empty only where there are none.
proof fn lemma_address_text(v4: Seq<Ipv4Addr>, v6: Seq<Ipv6Addr>)
    ensures
        address_text(v4, v6).len() == 0 <==> v4.len() == 0 && v6.len() == 0,
{
    let parts = show6(v6) + show4(v4);
    reveal_strlit(",");
    if parts.len() == 1 {
        reveal_strlit(".");
        if v6.len() == 1 {
            assert(parts[0] == ipv6_text(v6[0]));
            lemma_ipv6_text(v6[0]);
        } else {
            assert(parts[0] == dotted(v4[0]));
        }
    }
}

/// IPv4 addresses as text.
pub open spec fn show4(v4: Seq<Ipv4Addr>) -> Seq<Seq<char>> {
    v4.map_values(|ip: Ipv4Addr| dotted(ip))
}

/// IPv6 addresses as text.
pub open spec fn show6(v6: Seq<Ipv6Addr>) -> Seq<Seq<char>> {
    v6.map_values(|ip: Ipv6Addr| ipv6_text(ip))
}

/// IPv4 addresses as text.
pub fn ipv4_texts(v4: &[Ipv4Addr]) -> (r: Vec<String>)
    ensures
        texts(r@) == show4(v4@),
{
    let mut out: Vec<String> = Vec::new();
    let mut i: usize = 0;
    while i < v4.len()
        invariant
            i == out@.len() <= v4@.len(),
            forall|k: int| 0 <= k < i ==> (#[trigger] texts(out@)[k]) == dotted(v4@[k]),
        decreases v4@.len() - i,
    {
        let ghost before = out@;
        out.push(v4[i].to_text());
        proof {
            assert(texts(out@) =~= texts(before).push(dotted(v4@[i as int])));
        }
        i += 1;
    }
    proof {
        assert(texts(out@) =~= show4(v4@));
    }
    out
}

/// IPv6 addresses as text.
pub fn ipv6_texts(v6: &[Ipv6Addr]) -> (r: Vec<String>)
    ensures
        texts(r@) == show6(v6@),
{
    let mut out: Vec<String> = Vec::new();
    let mut i: usize = 0;
    while i < v6.len()
        invariant
            i == out@.len() <= v6@.len(),
            forall|k: int| 0 <= k < i ==> (#[trigger] texts(out@)[k]) == ipv6_text(v6@[k]),
        decreases v6@.len() - i,
    {
        let ghost before = out@;
        out.push(v6[i].to_text());
        proof {
            assert(texts(out@) =~= texts(before).push(ipv6_text(v6@[i as int])));
        }
        i += 1;
    }
    proof {
        assert(texts(out@) =~= show6(v6@));
    }
    out
}

/// The host of a service: the override, else that of the entry, else that of
/// the machine.
pub open spec fn service_host(
    override_: Option<Seq<char>>,
    entry: Option<Seq<char>>,
    machine: Seq<char>,
) -> Seq<char> {
    match (override_, entry) {
        (Some(h), _) => h,
        (None, Some(h)) => h,
        (None, None) => machine,
    }
}

/// The TXT properties of an entry in the order of their keys.
pub open spec fn entry_txt(txt: Option<Map<Seq<char>, Seq<char>>>) -> Seq<(Seq<char>, Seq<char>)> {
    match txt {
        Some(m) => ordered_pairs(m),
        None => Seq::empty(),
    }
}

/// The TXT properties of an entry in the order of their keys.
pub fn txt_pairs(txt_map: &Option<TextMap<String>>) -> (r: Vec<(String, String)>)
    ensures
        pair_views(r@) == entry_txt(opt_view(*txt_map)),
{
    let mut txt: Vec<(String, String)> = Vec::new();
    match txt_map {
        None => {
            proof {
                assert(pair_views(txt@) =~= Seq::empty());
            }
        },
        Some(m) => {
            let n: usize = m.len();
            let ghost listing = m.listing();
            let mut k: usize = 0;
            while k < n
                invariant
                    n == listing.len(),
                    listing == m.listing(),
                    k == txt@.len() <= n,
                    forall|j: int| 0 <= j < k ==> (#[trigger] pair_views(txt@)[j]) == listing[j],
                decreases n - k,
            {
                let ghost before = txt@;
                txt.push((m.key_at(k).copied(), m.value_at(k).copied()));
                proof {
                    assert(pair_views(txt@) =~= pair_views(before).push(listing[k as int]));
                }
                k += 1;
            }
            proof {
                assert(pair_views(txt@) =~= listing);
            }
        },
    }
    txt
}

/// What is handed to the mDNS daemon for a service.
#[derive(Debug)]
pub struct ServicePlan {
    pub full_type: String,
    pub instance: String,
    pub host: String,
    /// Addresses separated by commas; empty where the daemon is to fill them in.
    pub addresses: String,
    pub port: u16,
    pub txt: Vec<(String, String)>,
}

/// What a [`ServicePlan`] stands for.
#[verifier::ext_equal]
pub struct PlanView {
    pub full_type: Seq<char>,
    pub instance: Seq<char>,
    pub host: Seq<char>,
    pub addresses: Seq<char>,
    pub port: u16,
    pub txt: Seq<(Seq<char>, Seq<char>)>,
}

impl View for ServicePlan {
    type V = PlanView;

    open spec fn view(&self) -> PlanView {
        PlanView {
            full_type: self.full_type@,
            instance: self.instance@,
            host: self.host@,
            addresses: self.addresses@,
            port: self.port,
            txt: pair_views(self.txt@),
        }
    }
}

/// What is handed to the mDNS daemon for an entry.
pub open spec fn plan_for(
    entry: EntryView,
    override_: Option<Seq<char>>,
    machine: Seq<char>,
    v4: Seq<Ipv4Addr>,
    v6: Seq<Ipv6Addr>,
) -> PlanView {
    PlanView {
        full_type: full_type(entry.type_),
        instance: entry.name,
        host: full_host(service_host(override_, entry.host, machine)),
        addresses: address_text(v4, v6),
        port: entry.port,
        txt: entry_txt(entry.txt),
    }
}

/// Works out what to hand to the mDNS daemon for an entry, given the machine's
/// name and addresses.
pub fn plan_service(
    entry: &ServiceEntry,
    host_override: Option<&str>,
    machine: &str,
    v4: &[Ipv4Addr],
    v6: &[Ipv6Addr],
) -> (r: ServicePlan)
    ensures
        r@ == plan_for(
            entry@,
            match host_override {
                Some(h) => Some(h@),
                None => None,
            },
            machine@,
            v4@,
            v6@,
        ),
{
    let host = match host_override {
        Some(h) => normalize_hostname(h),
        None => match &entry.host {
            Some(h) => normalize_hostname(h.as_str()),
            None => normalize_hostname(machine),
        },
    };
    let mut parts = ipv6_texts(v6);
    let mut rest = ipv4_texts(v4);
    let ghost first = parts@;
    let ghost second = rest@;
    parts.append(&mut rest);
    proof {
        assert(texts(parts@) =~= texts(first) + texts(second));
    }
    let txt = txt_pairs(&entry.txt);
    ServicePlan {
        full_type: normalize_service_type(entry.type_.as_str()),
        instance: entry.name.copied(),
        host,
        addresses: join(&parts, ","),
        port: entry.port,
        txt,
    }
}

/// The message with which the mDNS daemon refuses a plan, if it does.
pub open spec fn plan_refusal(p: PlanView) -> Option<Seq<char>> {
    info_refusal(p.full_type, p.instance, p.host, p.addresses, p.port, p.txt)
}

/// A service as the mDNS daemon takes it.
pub struct Announcement {
    pub info: mdns_sd::ServiceInfo,
    /// The name under which the daemon keeps it.
    pub fullname: String,
}

/// What the mDNS daemon is handed for a plan.
pub open spec fn announces(a: Announcement, p: PlanView) -> bool {
    &&& a.fullname@ == info_holds(a.info).fullname
    &&& made_from(
        info_holds(a.info),
        p.full_type,
        p.instance,
        p.host,
        p.addresses,
        p.port,
        p.txt,
    )
    &&& info_holds(a.info).auto == (p.addresses.len() == 0)
}

/// Describes a planned service to the mDNS daemon. Where there are no
/// addresses, the daemon fills them in when there are.
pub fn describe(plan: &ServicePlan) -> (r: Result<Announcement, Error>)
    ensures
        match r {
            Ok(a) => {
                &&& plan_refusal(plan@) is None
                &&& txt_all_fit(plan@.txt)
                &&& announces(a, plan@)
            },
            Err(e) => {
                &&& plan_refusal(plan@) is Some
                &&& e@ == ErrorView::Mdns(plan_refusal(plan@)->0)
                &&& forall|v4: Seq<Ipv4Addr>, v6: Seq<Ipv6Addr>|
                    plan@.addresses == #[trigger] address_text(v4, v6) ==> !txt_all_fit(
                        plan@.txt,
                    )
            },
        },
{
    match new_service_info(
        plan.full_type.as_str(),
        plan.instance.as_str(),
        plan.host.as_str(),
        plan.addresses.as_str(),
        plan.port,
        &plan.txt,
    ) {
        Err(m) => Err(Error::Mdns(m)),
        Ok(info) => {
            let fullname = info.get_fullname().to_owned();
            if plan.addresses.as_str().is_empty() {
                Ok(Announcement { info: info.enable_addr_auto(), fullname })
            } else {
                Ok(Announcement { info, fullname })
            }
        },
    }
}

/// Whether the mDNS daemon runs, and what is registered with it.
#[derive(Debug)]
pub struct MdnsPublisher {
    running: bool,
    registered: TextMap<()>,
}

/// What the state of a publisher stands for.
#[verifier::ext_equal]
pub struct PublisherView {
    pub running: bool,
    /// The names of the registered services.
    pub names: Set<Seq<char>>,
}

impl View for MdnsPublisher {
    type V = PublisherView;

    closed spec fn view(&self) -> PublisherView {
        PublisherView { running: self.running, names: self.registered@.dom() }
    }
}

impl Default for MdnsPublisher {
    fn default() -> (r: Self)
        ensures
            r@ == (PublisherView { running: false, names: Set::empty() }),
    {
        MdnsPublisher::new()
    }
}

impl MdnsPublisher {
    /// A publisher whose daemon does not run yet.
    pub fn new() -> (r: Self)
        ensures
            r@ == (PublisherView { running: false, names: Set::empty() }),
    {
        let r = MdnsPublisher { running: false, registered: TextMap::new() };
        proof {
            assert(r.registered@.dom() =~= Set::empty());
        }
        r
    }

    /// Whether a daemon is to be started.
    pub fn needs_daemon(&self) -> (r: bool)
        ensures
            r == !self@.running,
    {
        !self.running
    }

    /// Takes in that the daemon was started.
    pub fn started(&mut self)
        ensures
            final(self)@ == (PublisherView { running: true, ..old(self)@ }),
    {
        self.running = true;
    }

    /// Describe a service for registration (or re-registration).
    ///
    /// Host A/AAAA records go with it, so that local resolvers cache them.
    pub fn register(
        &self,
        entry: &ServiceEntry,
        host_override: Option<&str>,
        machine: &str,
        v4: &[Ipv4Addr],
        v6: &[Ipv6Addr],
    ) -> (r: Result<Announcement, Error>)
        ensures
            ({
                let plan = plan_for(
                    entry@,
                    match host_override {
                        Some(h) => Some(h@),
                        None => None,
                    },
                    machine@,
                    v4@,
                    v6@,
                );
                match r {
                    Ok(a) => {
                        &&& self@.running
                        &&& plan_refusal(plan) is None
                        &&& txt_all_fit(plan.txt)
                        &&& a.fullname@ == daemon_name(plan.instance, plan.full_type)
                        &&& announces(a, plan)
                        &&& info_holds(a.info).v4 == v4@.to_set()
                        &&& info_holds(a.info).v6 == v6@.to_set()
                        &&& info_holds(a.info).auto == (v4@.len() == 0 && v6@.len() == 0)
                    },
                    Err(e) => if !self@.running {
                        e@ == ErrorView::Mdns("daemon not started"@)
                    } else {
                        &&& plan_refusal(plan) is Some
                        &&& e@ == ErrorView::Mdns(plan_refusal(plan)->0)
                        &&& !txt_all_fit(plan.txt)
                    },
                }
            }),
    {
        if !self.running {
            return Err(Error::Mdns("daemon not started".to_owned()));
        }
        let plan = plan_service(entry, host_override, machine, v4, v6);
        proof {
            lemma_address_text(v4@, v6@);
        }
        describe(&plan)
    }

    /// Takes in that a service was registered.
    pub fn registered(&mut self, fullname: String)
        ensures
            final(self)@.running == old(self)@.running,
            final(self)@.names == old(self)@.names.insert(fullname@),
    {
        let ghost before = self.registered@;
        self.registered.insert(fullname, ());
        proof {
            assert(self.registered@.dom() =~= before.dom().insert(fullname@));
        }
    }

    /// Whether the daemon is to be asked to unregister: only while it runs.
    pub fn can_unregister(&self) -> (r: bool)
        ensures
            r == self@.running,
    {
        self.running
    }

    /// Takes in that a service was unregistered.
    pub fn unregistered(&mut self, fullname: &str)
        ensures
            final(self)@.running == old(self)@.running,
            final(self)@.names == old(self)@.names.remove(fullname@),
    {
        let ghost before = self.registered@;
        self.registered.remove(fullname);
        proof {
            assert(self.registered@.dom() =~= before.dom().remove(fullname@));
        }
    }

    /// The registered fullnames, in order.
    pub fn registered_names(&self) -> (r: Vec<String>)
        ensures
            strictly_sorted::<String>(texts(r@)),
            forall|x: Seq<char>| #[trigger] texts(r@).contains(x) <==> self@.names.contains(x),
    {
        let n: usize = self.registered.len();
        let ghost listing = self.registered.listing();
        let mut out: Vec<String> = Vec::new();
        let mut i: usize = 0;
        while i < n
            invariant
                n == listing.len(),
                listing == self.registered.listing(),
                i == out@.len() <= n,
                forall|k: int| 0 <= k < i ==> (#[trigger] texts(out@)[k]) == listing[k].0,
            decreases n - i,
        {
            let ghost before = out@;
            out.push(self.registered.key_at(i).copied());
            proof {
                assert(texts(out@) =~= texts(before).push(listing[i as int].0));
            }
            i += 1;
        }
        proof {
            let t = texts(out@);
            assert forall|a: int, b: int| 0 <= a < b < t.len() implies text_le(
                #[trigger] t[a],
                #[trigger] t[b],
            ) && t[a] != t[b] by {
                assert(t[a] == listing[a].0 && t[b] == listing[b].0);
                assert(text_less(listing[a].0, listing[b].0));
                text_less_total(t[a], t[b]);
            }
            assert forall|x: Seq<char>| #[trigger] t.contains(x) <==> self@.names.contains(x) by {
                if t.contains(x) {
                    let k = choose|k: int| 0 <= k < t.len() && t[k] == x;
                    assert(listing[k].0 == x);
                }
                if self@.names.contains(x) {
                    let k = crate::textmap::place(listing, x);
                    assert(t[k] == x);
                }
            }
        }
        out
    }

    /// Build the DNS-SD fullname for an instance + type (for tracking).
    pub fn fullname(instance: &str, type_: &str) -> (r: String)
        ensures
            r@ == full_name(instance@, type_@),
    {
        let mut out = instance.to_owned();
        out.append(".");
        out.append(normalize_service_type(type_).as_str());
        out
    }

    /// Forgets the daemon and everything registered with it; returns the names
    /// to unregister first, which are none where no daemon runs.
    pub fn shutdown(&mut self) -> (r: Vec<String>)
        ensures
            final(self)@ == (PublisherView { running: false, names: Set::empty() }),
            strictly_sorted::<String>(texts(r@)),
            forall|x: Seq<char>| #[trigger]
                texts(r@).contains(x) <==> old(self)@.running && old(self)@.names.contains(x),
    {
        let names = if self.running {
            self.registered_names()
        } else {
            Vec::new()
        };
        self.running = false;
        self.registered = TextMap::new();
        proof {
            assert(self.registered@.dom() =~= Set::empty());
        }
        names
    }
}

/// Where the instance has no dot and no backslash and the type no subtype, the
/// daemon keeps a service under the name by which it is tracked.
pub proof fn plain_names_agree(instance: Seq<char>, type_: Seq<char>)
    requires
        !instance.contains('.'),
        !instance.contains('\\'),
        forall|i: int| !subtype_at(full_type(type_), i),
    ensures
        daemon_name(instance, full_type(type_)) == full_name(instance, type_),
{
    lemma_escaped_plain(instance);
}

/// Nothing is escaped where there is nothing to escape.
proof fn lemma_escaped_plain(name: Seq<char>)
    requires
        !name.contains('.'),
        !name.contains('\\'),
    ensures
        escaped(name) == name,
    decreases name.len(),
{
    if name.len() > 0 {
        let d = name.drop_last();
        assert(name[name.len() - 1] == name.last());
        assert forall|c: char| d.contains(c) implies name.contains(c) by {
            let i = choose|i: int| 0 <= i < d.len() && d[i] == c;
            assert(name[i] == c);
        }
        lemma_escaped_plain(d);
        assert(d.push(name.last()) =~= name);
    } else {
        assert(escaped(name) =~= name);
    }
}

/// A name ends with `.local.`, and making it so twice is making it so once.
pub proof fn hostname_is_stable(host: Seq<char>)
    ensures
        ends(full_host(host), ".local."@),
        full_host(full_host(host)) == full_host(host),
{
    reveal_strlit(".local.");
    reveal_strlit(".local");
    let t = strip_end(trimmed(host), '.');
    let base = type_base(host);
    let r = full_host(host);
    lemma_trimmed_ends(host);
    lemma_strip_end(trimmed(host), '.');
    assert(base.len() > 0 ==> base[0] == t[0]);
    assert(r[0] == (if base.len() > 0 {
        base[0]
    } else {
        '.'
    }));
    lemma_trimmed_same(r);
    let u = base + ".local"@;
    assert(r =~= u.push('.'));
    assert(u.last() == 'l');
    lemma_strip_end(u, '.');
    assert(u.skip(u.len() - 6) =~= ".local"@);
    assert(u.take(u.len() - 6) =~= base);
    assert(r.skip(r.len() - 7) =~= ".local."@);
}

/// A type ends with `.local.`, and making it so twice is making it so once.
pub proof fn service_type_is_stable(type_: Seq<char>)
    ensures
        ends(full_type(type_), ".local."@),
        full_type(full_type(type_)) == full_type(type_),
{
    reveal_strlit(".local.");
    reveal_strlit(".local");
    reveal_strlit(".");
    let t = strip_end(trimmed(type_), '.');
    let r = full_type(type_);
    lemma_trimmed_ends(type_);
    lemma_strip_end(trimmed(type_), '.');
    let u = if ends(t, ".local"@) {
        t
    } else {
        t + ".local"@
    };
    assert(r =~= u.push('.'));
    if ends(t, ".local"@) {
        assert(t.skip(t.len() - 6)[5] == 'l');
    } else {
        assert(u.skip(u.len() - 6) =~= ".local"@);
    }
    assert(u.last() == 'l');
    assert(u.len() > 0 && r[0] == u[0]);
    lemma_trimmed_same(r);
    lemma_strip_end(u, '.');
    assert(r.skip(r.len() - 7) =~= u.skip(u.len() - 6).push('.'));
    assert(r.skip(r.len() - 7) =~= ".local."@);
    assert(r =~= u + "."@);
}

/// Container and bridge interfaces are never used, nor are interfaces with a
/// prefix that is to be skipped, even where the allowlist has them.
pub proof fn skip_beats_allow(iface: IfaceInfo, allow: Seq<Seq<char>>, skip: Seq<Seq<char>>)
    ensures
        virtual_iface(iface.name@) ==> !usable(iface, allow, skip),
        any_prefix_hits(iface.name@, skip) ==> !usable(iface, allow, skip),
{
}

/// Case does not matter for the interface lists.
pub proof fn prefix_case_is_ignored(name: Seq<char>, prefix: Seq<char>)
    ensures
        prefix_hits(lower(name), prefix) == prefix_hits(name, prefix),
        prefix_hits(name, lower(prefix)) == prefix_hits(name, prefix),
{
    lemma_lower_trimmed(name);
    lemma_lower_trimmed(prefix);
    lemma_lower_trimmed(trimmed(prefix));
}

/// The preferred IPv4 addresses are in order, come from usable interfaces, and
/// are worth advertising.
pub proof fn preferred4_is_sound(
    ifaces: Seq<IfaceInfo>,
    allow: Seq<Seq<char>>,
    skip: Seq<Seq<char>>,
    i: int,
)
    requires
        0 <= i < best4(ifaces, allow, skip).len(),
    ensures
        sorted::<IfaceAddr4>(best4(ifaces, allow, skip)),
        good4(best4(ifaces, allow, skip)[i].addr),
        exists|k: int|
            0 <= k < ifaces.len() && usable(#[trigger] ifaces[k], allow, skip) && ifaces[k].name@
                == best4(ifaces, allow, skip)[i].iface,
{
    let found = found4(ifaces, allow, skip);
    let best = best4(ifaces, allow, skip);
    lemma_stable_sorted::<IfaceAddr4>(found);
    lemma_sorts_contains::<IfaceAddr4>(best, found, best[i]);
    assert(best.contains(best[i]));
    let j = choose|j: int| 0 <= j < found.len() && found[j] == best[i];
    lemma_found4(ifaces, allow, skip, j);
}

/// What is found comes from a usable interface and is worth advertising.
proof fn lemma_found4(
    ifaces: Seq<IfaceInfo>,
    allow: Seq<Seq<char>>,
    skip: Seq<Seq<char>>,
    j: int,
)
    requires
        0 <= j < found4(ifaces, allow, skip).len(),
    ensures
        good4(found4(ifaces, allow, skip)[j].addr),
        exists|k: int|
            0 <= k < ifaces.len() && usable(#[trigger] ifaces[k], allow, skip) && ifaces[k].name@
                == found4(ifaces, allow, skip)[j].iface,
    decreases ifaces.len(),
{
    let d = ifaces.drop_last();
    let before = found4(d, allow, skip);
    if j < before.len() {
        lemma_found4(d, allow, skip, j);
        let k = choose|k: int|
            0 <= k < d.len() && usable(#[trigger] d[k], allow, skip) && d[k].name@
                == before[j].iface;
        assert(ifaces[k] == d[k]);
    } else {
        let l = ifaces[ifaces.len() - 1];
        assert(usable(l, allow, skip));
        lemma_iface_addrs4(l, l.ipv4@.len(), j - before.len());
    }
}

/// The addresses of an interface that are listed are worth advertising.
proof fn lemma_iface_addrs4(iface: IfaceInfo, n: nat, j: int)
    requires
        0 <= j < iface_addrs4(iface, n).len(),
    ensures
        good4(iface_addrs4(iface, n)[j].addr),
        iface_addrs4(iface, n)[j].iface == iface.name@,
    decreases n,
{
    if n > 0 && j < iface_addrs4(iface, (n - 1) as nat).len() {
        lemma_iface_addrs4(iface, (n - 1) as nat, j);
    }
}

/// An empty allowlist allows every interface.
pub proof fn empty_allowlist_allows_all(name: Seq<char>)
    ensures
        allowed(name, Seq::empty()),
{
}

/// The preferred IPv6 addresses are in order, come from usable interfaces, and
/// are worth advertising.
pub proof fn preferred6_is_sound(
    ifaces: Seq<IfaceInfo>,
    allow: Seq<Seq<char>>,
    skip: Seq<Seq<char>>,
    i: int,
)
    requires
        0 <= i < best6(ifaces, allow, skip).len(),
    ensures
        sorted::<IfaceAddr6>(best6(ifaces, allow, skip)),
        good6(best6(ifaces, allow, skip)[i].addr),
        exists|k: int|
            0 <= k < ifaces.len() && usable(#[trigger] ifaces[k], allow, skip) && ifaces[k].name@
                == best6(ifaces, allow, skip)[i].iface,
{
    let found = found6(ifaces, allow, skip);
    let best = best6(ifaces, allow, skip);
    lemma_stable_sorted::<IfaceAddr6>(found);
    lemma_sorts_contains::<IfaceAddr6>(best, found, best[i]);
    assert(best.contains(best[i]));
    let j = choose|j: int| 0 <= j < found.len() && found[j] == best[i];
    lemma_found6(ifaces, allow, skip, j);
}

/// What is found comes from a usable interface and is worth advertising.
proof fn lemma_found6(
    ifaces: Seq<IfaceInfo>,
    allow: Seq<Seq<char>>,
    skip: Seq<Seq<char>>,
    j: int,
)
    requires
        0 <= j < found6(ifaces, allow, skip).len(),
    ensures
        good6(found6(ifaces, allow, skip)[j].addr),
        exists|k: int|
            0 <= k < ifaces.len() && usable(#[trigger] ifaces[k], allow, skip) && ifaces[k].name@
                == found6(ifaces, allow, skip)[j].iface,
    decreases ifaces.len(),
{
    let d = ifaces.drop_last();
    let before = found6(d, allow, skip);
    if j < before.len() {
        lemma_found6(d, allow, skip, j);
        let k = choose|k: int|
            0 <= k < d.len() && usable(#[trigger] d[k], allow, skip) && d[k].name@
                == before[j].iface;
        assert(ifaces[k] == d[k]);
    } else {
        let l = ifaces[ifaces.len() - 1];
        assert(usable(l, allow, skip));
        lemma_iface_addrs6(l, l.ipv6@.len(), j - before.len());
    }
}

/// The addresses of an interface that are listed are worth advertising.
proof fn lemma_iface_addrs6(iface: IfaceInfo, n: nat, j: int)
    requires
        0 <= j < iface_addrs6(iface, n).len(),
    ensures
        good6(iface_addrs6(iface, n)[j].addr),
        iface_addrs6(iface, n)[j].iface == iface.name@,
    decreases n,
{
    if n > 0 && j < iface_addrs6(iface, (n - 1) as nat).len() {
        lemma_iface_addrs6(iface, (n - 1) as nat, j);
    }
}

/// An interface is used exactly if its link is up, it is not the loopback, its
/// name begins neither like those of containers and bridges nor with a prefix
/// to skip, and it begins with an allowed prefix where there are any. Case does
/// not matter, nor does white space around a prefix; a blank prefix is none.
pub proof fn usable_is_exact(iface: IfaceInfo, allow: Seq<Seq<char>>, skip: Seq<Seq<char>>)
    ensures
        usable(iface, allow, skip) <==> {
            let n = lower(iface.name@);
            &&& iface.is_up
            &&& !iface.is_loopback
            &&& !begins(n, "docker"@) && !begins(n, "veth"@) && !begins(n, "br-"@) && !begins(
                n,
                "br0"@,
            ) && n != "cni0"@ && !begins(n, "flannel"@) && !begins(n, "virbr"@)
            &&& forall|i: int|
                0 <= i < skip.len() && trimmed(#[trigger] skip[i]).len() > 0 ==> !begins(
                    n,
                    lower(trimmed(skip[i])),
                )
            &&& allow.len() > 0 ==> exists|i: int|
                0 <= i < allow.len() && trimmed(#[trigger] allow[i]).len() > 0 && begins(
                    n,
                    lower(trimmed(allow[i])),
                )
        },
        relevant(iface.name@, allow, skip) && iface.is_up && !iface.is_loopback ==> usable(
            iface,
            allow,
            skip,
        ),
        usable(iface, allow, skip) && iface.name@ != "lo"@ ==> relevant(iface.name@, allow, skip),
        !relevant("lo"@, allow, skip),
{
    let n = lower(iface.name@);
    if !any_prefix_hits(iface.name@, skip) {
        assert forall|i: int| 0 <= i < skip.len() && trimmed(#[trigger] skip[i]).len() > 0 implies
            !begins(n, lower(trimmed(skip[i]))) by {
            assert(!prefix_hits(iface.name@, skip[i]));
        }
    } else {
        let i = choose|i: int| 0 <= i < skip.len() && prefix_hits(iface.name@, #[trigger] skip[i]);
        assert(trimmed(skip[i]).len() > 0 && begins(n, lower(trimmed(skip[i]))));
    }
    if any_prefix_hits(iface.name@, allow) {
        let i = choose|i: int| 0 <= i < allow.len() && prefix_hits(iface.name@, #[trigger] allow[i]);
        assert(trimmed(allow[i]).len() > 0 && begins(n, lower(trimmed(allow[i]))));
    } else {
        assert forall|i: int| 0 <= i < allow.len() && trimmed(#[trigger] allow[i]).len() > 0 implies
            !begins(n, lower(trimmed(allow[i]))) by {
            assert(!prefix_hits(iface.name@, allow[i]));
        }
    }
}

/// An IPv6 address is preferred exactly if a usable interface has it and it is
/// neither `::` nor `::1` nor within `fe80::` to `febf:ffff:…`, whose first ten
/// bits are 1111111010. It is told with the name and the index of that
/// interface.
pub proof fn preferred6_is_exact(
    ifaces: Seq<IfaceInfo>,
    allow: Seq<Seq<char>>,
    skip: Seq<Seq<char>>,
    a: Addr6View,
)
    ensures
        best6(ifaces, allow, skip).contains(a) <==> {
            &&& a.addr.bits != 0
            &&& a.addr.bits != 1
            &&& !(0xfe80_0000_0000_0000_0000_0000_0000_0000 <= a.addr.bits
                < 0xfec0_0000_0000_0000_0000_0000_0000_0000)
            &&& exists|k: int|
                0 <= k < ifaces.len() && usable(#[trigger] ifaces[k], allow, skip)
                    && ifaces[k].ipv6@.contains(a.addr) && ifaces[k].name@ == a.iface
                    && ifaces[k].ifindex == a.ifindex
        },
{
    let found = found6(ifaces, allow, skip);
    lemma_stable_sorted::<IfaceAddr6>(found);
    lemma_sorts_contains::<IfaceAddr6>(best6(ifaces, allow, skip), found, a);
    lemma_found6_exact(ifaces, allow, skip, a);
}

/// What is found of IPv6 is what the usable interfaces have.
proof fn lemma_found6_exact(
    ifaces: Seq<IfaceInfo>,
    allow: Seq<Seq<char>>,
    skip: Seq<Seq<char>>,
    a: Addr6View,
)
    ensures
        found6(ifaces, allow, skip).contains(a) <==> good6(a.addr) && exists|k: int|
            0 <= k < ifaces.len() && usable(#[trigger] ifaces[k], allow, skip)
                && ifaces[k].ipv6@.contains(a.addr) && ifaces[k].name@ == a.iface
                && ifaces[k].ifindex == a.ifindex,
    decreases ifaces.len(),
{
    if ifaces.len() > 0 {
        let d = ifaces.drop_last();
        let l = ifaces.last();
        assert(ifaces[ifaces.len() - 1] == l);
        lemma_found6_exact(d, allow, skip, a);
        let before = found6(d, allow, skip);
        let here = iface_addrs6(l, l.ipv6@.len());
        lemma_iface_addrs6_exact(l, l.ipv6@.len(), a);
        assert(l.ipv6@.take(l.ipv6@.len() as int) =~= l.ipv6@);
        lemma_sum_has(before, here, a);
        if before.contains(a) {
            let k = choose|k: int|
                0 <= k < d.len() && usable(#[trigger] d[k], allow, skip) && d[k].ipv6@.contains(
                    a.addr,
                ) && d[k].name@ == a.iface && d[k].ifindex == a.ifindex;
            assert(ifaces[k] == d[k]);
        }
        if exists|k: int|
            0 <= k < ifaces.len() && usable(#[trigger] ifaces[k], allow, skip)
                && ifaces[k].ipv6@.contains(a.addr) && ifaces[k].name@ == a.iface
                && ifaces[k].ifindex == a.ifindex {
            let k = choose|k: int|
                0 <= k < ifaces.len() && usable(#[trigger] ifaces[k], allow, skip)
                    && ifaces[k].ipv6@.contains(a.addr) && ifaces[k].name@ == a.iface
                    && ifaces[k].ifindex == a.ifindex;
            if k < d.len() {
                assert(d[k] == ifaces[k]);
            }
        }
    }
}

/// The addresses of an interface that are listed are those worth advertising.
proof fn lemma_iface_addrs6_exact(iface: IfaceInfo, n: nat, a: Addr6View)
    requires
        n <= iface.ipv6@.len(),
    ensures
        iface_addrs6(iface, n).contains(a) <==> good6(a.addr) && iface.ipv6@.take(
            n as int,
        ).contains(a.addr) && iface.name@ == a.iface && iface.ifindex == a.ifindex,
    decreases n,
{
    if n > 0 {
        let m = (n - 1) as nat;
        lemma_iface_addrs6_exact(iface, m, a);
        let x = iface.ipv6@[n - 1];
        assert(iface.ipv6@.take(n as int) =~= iface.ipv6@.take(m as int) + seq![x]);
        lemma_sum_has(iface.ipv6@.take(m as int), seq![x], a.addr);
        assert(seq![x].contains(a.addr) <==> x == a.addr) by {
            assert(seq![x][0] == x);
        }
        let before = iface_addrs6(iface, m);
        let e = Addr6View { iface: iface.name@, addr: x, ifindex: iface.ifindex };
        lemma_sum_has(before, seq![e], a);
        assert(seq![e].contains(a) <==> e == a) by {
            assert(seq![e][0] == e);
        }
        assert(before + seq![e] =~= before.push(e));
    }
}

/// An IPv4 address is preferred exactly if a usable interface has it with that
/// netmask and it is neither 0.0.0.0 nor within 127.0.0.0 to 127.255.255.255.
/// It is told with the name and the index of that interface.
pub proof fn preferred4_is_exact(
    ifaces: Seq<IfaceInfo>,
    allow: Seq<Seq<char>>,
    skip: Seq<Seq<char>>,
    a: Addr4View,
)
    ensures
        best4(ifaces, allow, skip).contains(a) <==> {
            &&& a.addr.bits != 0
            &&& !(0x7f00_0000 <= a.addr.bits < 0x8000_0000)
            &&& exists|k: int|
                0 <= k < ifaces.len() && usable(#[trigger] ifaces[k], allow, skip)
                    && ifaces[k].ipv4@.contains((a.addr, a.mask)) && ifaces[k].name@ == a.iface
                    && ifaces[k].ifindex == a.ifindex
        },
{
    let found = found4(ifaces, allow, skip);
    lemma_stable_sorted::<IfaceAddr4>(found);
    lemma_sorts_contains::<IfaceAddr4>(best4(ifaces, allow, skip), found, a);
    lemma_found4_exact(ifaces, allow, skip, a);
}

/// What is found of IPv4 is what the usable interfaces have.
proof fn lemma_found4_exact(
    ifaces: Seq<IfaceInfo>,
    allow: Seq<Seq<char>>,
    skip: Seq<Seq<char>>,
    a: Addr4View,
)
    ensures
        found4(ifaces, allow, skip).contains(a) <==> good4(a.addr) && exists|k: int|
            0 <= k < ifaces.len() && usable(#[trigger] ifaces[k], allow, skip)
                && ifaces[k].ipv4@.contains((a.addr, a.mask)) && ifaces[k].name@ == a.iface
                && ifaces[k].ifindex == a.ifindex,
    decreases ifaces.len(),
{
    if ifaces.len() > 0 {
        let d = ifaces.drop_last();
        let l = ifaces.last();
        assert(ifaces[ifaces.len() - 1] == l);
        lemma_found4_exact(d, allow, skip, a);
        let before = found4(d, allow, skip);
        let here = iface_addrs4(l, l.ipv4@.len());
        lemma_iface_addrs4_exact(l, l.ipv4@.len(), a);
        assert(l.ipv4@.take(l.ipv4@.len() as int) =~= l.ipv4@);
        lemma_sum_has(before, here, a);
        if before.contains(a) {
            let k = choose|k: int|
                0 <= k < d.len() && usable(#[trigger] d[k], allow, skip) && d[k].ipv4@.contains(
                    (a.addr, a.mask),
                ) && d[k].name@ == a.iface && d[k].ifindex == a.ifindex;
            assert(ifaces[k] == d[k]);
        }
        if exists|k: int|
            0 <= k < ifaces.len() && usable(#[trigger] ifaces[k], allow, skip)
                && ifaces[k].ipv4@.contains((a.addr, a.mask)) && ifaces[k].name@ == a.iface
                && ifaces[k].ifindex == a.ifindex {
            let k = choose|k: int|
                0 <= k < ifaces.len() && usable(#[trigger] ifaces[k], allow, skip)
                    && ifaces[k].ipv4@.contains((a.addr, a.mask)) && ifaces[k].name@ == a.iface
                    && ifaces[k].ifindex == a.ifindex;
            if k < d.len() {
                assert(d[k] == ifaces[k]);
            }
        }
    }
}

/// The addresses of an interface that are listed are those worth advertising.
proof fn lemma_iface_addrs4_exact(iface: IfaceInfo, n: nat, a: Addr4View)
    requires
        n <= iface.ipv4@.len(),
    ensures
        iface_addrs4(iface, n).contains(a) <==> good4(a.addr) && iface.ipv4@.take(
            n as int,
        ).contains((a.addr, a.mask)) && iface.name@ == a.iface && iface.ifindex == a.ifindex,
    decreases n,
{
    if n > 0 {
        let m = (n - 1) as nat;
        lemma_iface_addrs4_exact(iface, m, a);
        let x = iface.ipv4@[n - 1];
        assert(iface.ipv4@.take(n as int) =~= iface.ipv4@.take(m as int) + seq![x]);
        lemma_sum_has(iface.ipv4@.take(m as int), seq![x], (a.addr, a.mask));
        assert(seq![x].contains((a.addr, a.mask)) <==> x == (a.addr, a.mask)) by {
            assert(seq![x][0] == x);
        }
        let before = iface_addrs4(iface, m);
        let e = Addr4View { iface: iface.name@, addr: x.0, mask: x.1, ifindex: iface.ifindex };
        lemma_sum_has(before, seq![e], a);
        assert(seq![e].contains(a) <==> e == a) by {
            assert(seq![e][0] == e);
        }
        assert(before + seq![e] =~= before.push(e));
    }
}

/// Types and hosts get the domain once, whether or not they have it or a
/// trailing dot; an instance stands before its type with a dot between them.
pub proof fn names_get_the_domain_once(t: Seq<char>, instance: Seq<char>)
    requires
        t.len() > 0,
        !crate::text::white(t[0]),
        !crate::text::white(t.last()),
        t.last() != '.',
        !ends(t, ".local"@),
    ensures
        full_type(t) == t + ".local."@,
        full_type(t.push('.')) == t + ".local."@,
        full_type(t + ".local"@) == t + ".local."@,
        full_type(t + ".local."@) == t + ".local."@,
        full_host(t) == t + ".local."@,
        full_host(t.push('.')) == t + ".local."@,
        full_host(t + ".local"@) == t + ".local."@,
        full_host(t + ".local."@) == t + ".local."@,
        full_name(instance, t) == instance + "."@ + t + ".local."@,
{
    reveal_strlit(".local");
    reveal_strlit(".local.");
    reveal_strlit(".");
    crate::config::domain_is_optional(t);
    lemma_trimmed_same(t);
    lemma_strip_end(t, '.');
    let w = t.push('.');
    assert(w.last() == '.' && w[0] == t[0]);
    lemma_trimmed_same(w);
    let u = t + ".local"@;
    assert(u.last() == 'l' && u[0] == t[0]);
    lemma_trimmed_same(u);
    lemma_strip_end(u, '.');
    assert(u.skip(u.len() - 6) =~= ".local"@);
    assert(u + "."@ =~= t + ".local."@);
    let v = t + ".local."@;
    assert(v =~= u.push('.'));
    assert(v.last() == '.' && v[0] == t[0]);
    lemma_trimmed_same(v);
    assert(full_name(instance, t) =~= instance + "."@ + t + ".local."@);
}

/// A link is live exactly if the flag for a running interface is set, which is
/// the seventh bit, or if the operational state is "up", whatever the case.
pub proof fn live_links_run_or_are_up(flags: u32, operstate: Seq<char>)
    ensures
        link_ready(flags, operstate) <==> flags / 64 % 2 == 1 || lower(operstate) == "up"@,
        flags & IFF_LOOPBACK != 0 <==> flags / 8 % 2 == 1,
{
    assert(flags & 0x40 != 0 <==> flags / 64 % 2 == 1) by (bit_vector);
    assert(flags & 0x8 != 0 <==> flags / 8 % 2 == 1) by (bit_vector);
}

/// The flags of an interface are read in hexadecimal behind `0x`, its index in
/// decimal; a line feed behind them does not matter.
pub proof fn flags_and_index_are_read(n: u32)
    ensures
        flags_in("0x"@ + hex(n as nat)) == n,
        flags_in("0x"@ + hex(n as nat) + seq!['\n']) == n,
        ifindex_in(Some(decimal(n as nat))) == n,
        ifindex_in(Some(decimal(n as nat) + seq!['\n'])) == n,
        ifindex_in(None) == 0,
{
    reveal_strlit("0x");
    let h = hex(n as nat);
    let d = decimal(n as nat);
    hex_reads_back(n as nat);
    decimal_reads_back(n as nat);
    assert(unsigned_to(h, 16, 0xffff_ffff) == Some(n as nat));
    assert(unsigned_to(d, 10, 0xffff_ffff) == Some(n as nat));
    numbers_are_digits_only(h, 16, 0xffff_ffff, h.len() - 1);
    numbers_are_digits_only(d, 10, 0xffff_ffff, 0);
    numbers_are_digits_only(d, 10, 0xffff_ffff, d.len() - 1);
    if h.len() > 1 {
        numbers_are_digits_only(h, 16, 0xffff_ffff, 1);
    }
    let s = "0x"@ + h;
    assert(s[0] == '0' && s.last() == h.last());
    lemma_trimmed_same(s);
    lemma_trailing_feed(s);
    lemma_trimmed_same(d);
    lemma_trailing_feed(d);
    assert(s.skip(2) =~= h);
    assert(s.take(2) =~= "0x"@);
    assert(!begins(h, "0x"@)) by {
        if begins(h, "0x"@) {
            assert(h.take(2)[1] == 'x');
        }
    }
    assert(strip_hex_marks(s) == strip_hex_marks(h));
}

/// A line feed behind a text is trimmed away.
proof fn lemma_trailing_feed(s: Seq<char>)
    requires
        s.len() > 0,
        !crate::text::white(s[0]),
        !crate::text::white(s.last()),
    ensures
        trimmed(s + seq!['\n']) == s,
{
    let t = s + seq!['\n'];
    assert(t[0] == s[0]);
    crate::text::lemma_trim_start(t);
    assert(t.last() == '\n');
    assert(t.drop_last() =~= s);
    crate::text::lemma_trim_end(s);
}

/// The addresses of an interface are those that are listed under its name, in
/// their order; a netmask that is missing is 255.255.255.0.
pub proof fn addresses_go_to_their_interface(
    name: Seq<char>,
    entries: Seq<RawAddr>,
    e: RawAddr,
)
    ensures
        listed4(name, Seq::empty()).len() == 0,
        listed6(name, Seq::empty()).len() == 0,
        match e {
            RawAddr::V4 { iface, addr, mask } => {
                &&& listed6(name, entries.push(e)) == listed6(name, entries)
                &&& iface@ != name ==> listed4(name, entries.push(e)) == listed4(name, entries)
                &&& iface@ == name ==> {
                    let r = listed4(name, entries.push(e));
                    &&& r.len() == listed4(name, entries).len() + 1
                    &&& r.drop_last() == listed4(name, entries)
                    &&& r.last().0 == addr
                    &&& mask is Some ==> r.last().1 == mask->0
                    &&& mask is None ==> r.last().1.bits == 0xffff_ff00
                }
            },
            RawAddr::V6 { iface, addr } => {
                &&& listed4(name, entries.push(e)) == listed4(name, entries)
                &&& iface@ != name ==> listed6(name, entries.push(e)) == listed6(name, entries)
                &&& iface@ == name ==> listed6(name, entries.push(e)) == listed6(
                    name,
                    entries,
                ).push(addr)
            },
        },
{
    assert(entries.push(e).drop_last() =~= entries);
    match e {
        RawAddr::V4 { iface, addr, mask } => {
            if iface@ == name {
                assert(listed4(name, entries.push(e)).drop_last() =~= listed4(name, entries));
            }
        },
        RawAddr::V6 { iface, addr } => {},
    }
}

/// An IPv6 group is joined on an interface exactly if that is usable, has an
/// address of either kind, and its index is known.
pub proof fn joined_indexes_are_exact(
    ifaces: Seq<IfaceInfo>,
    allow: Seq<Seq<char>>,
    skip: Seq<Seq<char>>,
    x: u32,
)
    ensures
        found_indexes(ifaces, allow, skip).contains(x) <==> x != 0 && exists|k: int|
            0 <= k < ifaces.len() && usable(#[trigger] ifaces[k], allow, skip)
                && ifaces[k].ifindex == x && (ifaces[k].ipv4@.len() > 0 || ifaces[k].ipv6@.len()
                > 0),
    decreases ifaces.len(),
{
    if ifaces.len() > 0 {
        let d = ifaces.drop_last();
        let n = ifaces.len() - 1;
        let l = ifaces[n];
        assert(l == ifaces.last());
        joined_indexes_are_exact(d, allow, skip, x);
        let before = found_indexes(d, allow, skip);
        lemma_sum_has(before, seq![l.ifindex], x);
        assert(before + seq![l.ifindex] =~= before.push(l.ifindex));
        assert(seq![l.ifindex].contains(x) <==> l.ifindex == x) by {
            assert(seq![l.ifindex][0] == l.ifindex);
        }
        if before.contains(x) {
            let k = choose|k: int|
                0 <= k < d.len() && usable(#[trigger] d[k], allow, skip) && d[k].ifindex == x && (
                d[k].ipv4@.len() > 0 || d[k].ipv6@.len() > 0);
            assert(ifaces[k] == d[k]);
        }
        if exists|k: int|
            0 <= k < ifaces.len() && usable(#[trigger] ifaces[k], allow, skip)
                && ifaces[k].ifindex == x && (ifaces[k].ipv4@.len() > 0 || ifaces[k].ipv6@.len()
                > 0) {
            let k = choose|k: int|
                0 <= k < ifaces.len() && usable(#[trigger] ifaces[k], allow, skip)
                    && ifaces[k].ifindex == x && (ifaces[k].ipv4@.len() > 0
                    || ifaces[k].ipv6@.len() > 0);
            if k < n {
                assert(d[k] == ifaces[k]);
            }
        }
    }
}

/// Preferred addresses stand in the order of their interfaces' names and, on one
/// interface, of their numbers; an interface more adds as many as it has that
/// are worth advertising.
pub proof fn preferred_addresses_are_ordered(
    ifaces: Seq<IfaceInfo>,
    allow: Seq<Seq<char>>,
    skip: Seq<Seq<char>>,
    i: int,
)
    ensures
        ({
            let a = best4(ifaces, allow, skip);
            let b = best6(ifaces, allow, skip);
            &&& 0 < i < a.len() ==> text_less(a[i - 1].iface, a[i].iface) || a[i - 1].iface
                == a[i].iface && a[i - 1].addr.bits <= a[i].addr.bits
            &&& 0 < i < b.len() ==> text_less(b[i - 1].iface, b[i].iface) || b[i - 1].iface
                == b[i].iface && b[i - 1].addr.bits <= b[i].addr.bits
        }),
{
    sorting_keeps_everything::<IfaceAddr4>(found4(ifaces, allow, skip));
    sorting_keeps_everything::<IfaceAddr6>(found6(ifaces, allow, skip));
}

/// An interface more adds as many addresses as it has that are worth
/// advertising, if it is usable.
pub proof fn every_usable_address_counts(
    ifaces: Seq<IfaceInfo>,
    l: IfaceInfo,
    allow: Seq<Seq<char>>,
    skip: Seq<Seq<char>>,
)
    ensures
        ({
            let all = ifaces.push(l);
            let v4 = l.ipv4@.filter(
                |p: (Ipv4Addr, Ipv4Addr)| p.0.bits != 0 && !(0x7f00_0000 <= p.0.bits < 0x8000_0000),
            );
            let v6 = l.ipv6@.filter(
                |p: Ipv6Addr|
                    p.bits > 1 && !(0xfe80_0000_0000_0000_0000_0000_0000_0000 <= p.bits
                        < 0xfec0_0000_0000_0000_0000_0000_0000_0000),
            );
            &&& usable(l, allow, skip) ==> best4(all, allow, skip).len() == best4(
                ifaces,
                allow,
                skip,
            ).len() + v4.len() && best6(all, allow, skip).len() == best6(
                ifaces,
                allow,
                skip,
            ).len() + v6.len()
            &&& !usable(l, allow, skip) ==> best4(all, allow, skip) == best4(ifaces, allow, skip)
                && best6(all, allow, skip) == best6(ifaces, allow, skip)
        }),
{
    let all = ifaces.push(l);
    assert(all.drop_last() =~= ifaces);
    sorting_keeps_everything::<IfaceAddr4>(found4(ifaces, allow, skip));
    sorting_keeps_everything::<IfaceAddr4>(found4(all, allow, skip));
    sorting_keeps_everything::<IfaceAddr6>(found6(ifaces, allow, skip));
    sorting_keeps_everything::<IfaceAddr6>(found6(all, allow, skip));
    lemma_worthy_count(l, l.ipv4@.len(), l.ipv6@.len());
    assert(l.ipv4@.take(l.ipv4@.len() as int) =~= l.ipv4@);
    assert(l.ipv6@.take(l.ipv6@.len() as int) =~= l.ipv6@);
}

/// How many addresses of an interface are worth advertising.
proof fn lemma_worthy_count(l: IfaceInfo, n: nat, m: nat)
    requires
        n <= l.ipv4@.len(),
        m <= l.ipv6@.len(),
    ensures
        iface_addrs4(l, n).len() == l.ipv4@.take(n as int).filter(
            |p: (Ipv4Addr, Ipv4Addr)| p.0.bits != 0 && !(0x7f00_0000 <= p.0.bits < 0x8000_0000),
        ).len(),
        iface_addrs6(l, m).len() == l.ipv6@.take(m as int).filter(
            |p: Ipv6Addr|
                p.bits > 1 && !(0xfe80_0000_0000_0000_0000_0000_0000_0000 <= p.bits
                    < 0xfec0_0000_0000_0000_0000_0000_0000_0000),
        ).len(),
    decreases n + m,
{
    reveal(Seq::filter);
    if n > 0 {
        lemma_worthy_count(l, (n - 1) as nat, m);
        assert(l.ipv4@.take(n as int).drop_last() =~= l.ipv4@.take(n - 1));
    }
    if m > 0 {
        lemma_worthy_count(l, n, (m - 1) as nat);
        assert(l.ipv6@.take(m as int).drop_last() =~= l.ipv6@.take(m - 1));
    }
}

/// What is handed to the mDNS daemon for an entry is the entry: its name, type,
/// port and TXT properties, each property once and by its key, and the host
/// that overrides it, or its own, or that of the machine.
pub proof fn registration_carries_the_entry(
    entry: EntryView,
    host: Seq<char>,
    machine: Seq<char>,
    v4: Seq<Ipv4Addr>,
    v6: Seq<Ipv6Addr>,
    key: Seq<char>,
    value: Seq<char>,
)
    requires
        entry.txt is Some ==> entry.txt->0.dom().finite(),
    ensures
        ({
            let p = plan_for(entry, None, machine, v4, v6);
            let q = plan_for(entry, Some(host), machine, v4, v6);
            &&& p.instance == entry.name && q.instance == entry.name
            &&& p.port == entry.port && q.port == entry.port
            &&& p.full_type == full_type(entry.type_) && q.full_type == p.full_type
            &&& p.addresses == q.addresses && p.txt == q.txt
            &&& q.host == full_host(host)
            &&& entry.host is Some ==> p.host == full_host(entry.host->0)
            &&& entry.host is None ==> p.host == full_host(machine)
            &&& p.txt.contains((key, value)) <==> entry.txt is Some
                && entry.txt->0.contains_key(key) && entry.txt->0[key] == value
            &&& entry.txt is Some ==> crate::textmap::rising(p.txt)
        }),
{
    if let Some(m) = entry.txt {
        crate::textmap::lemma_ordered_pairs(m);
        let s = ordered_pairs(m);
        if s.contains((key, value)) {
            let i = choose|i: int| 0 <= i < s.len() && s[i] == (key, value);
            crate::textmap::lemma_place(s, i);
        }
        if m.contains_key(key) && m[key] == value {
            let i = crate::textmap::place(s, key);
            assert(crate::textmap::listed(s, key));
            assert(s[i] == (key, value));
        }
    }
}

/// The addresses of a service are listed with commas between them, those of
/// IPv6 before those of IPv4.
pub proof fn addresses_are_listed_in_turn(
    v4: Seq<Ipv4Addr>,
    v6: Seq<Ipv6Addr>,
    a: Ipv4Addr,
    b: Ipv6Addr,
)
    ensures
        address_text(Seq::empty(), Seq::empty()).len() == 0,
        address_text(seq![a], Seq::empty()) == dotted(a),
        address_text(Seq::empty(), seq![b]) == ipv6_text(b),
        v4.len() + v6.len() > 0 ==> address_text(v4.push(a), v6) == address_text(v4, v6) + ","@
            + dotted(a),
        v6.len() > 0 ==> address_text(Seq::empty(), v6.push(b)) == address_text(Seq::empty(), v6)
            + ","@ + ipv6_text(b),
{
    let none4 = Seq::<Ipv4Addr>::empty();
    let none6 = Seq::<Ipv6Addr>::empty();
    assert((show6(none6) + show4(seq![a]))[0] == dotted(a));
    assert((show6(seq![b]) + show4(none4))[0] == ipv6_text(b));
    let s = show6(v6) + show4(v4.push(a));
    assert(s.drop_last() =~= show6(v6) + show4(v4));
    assert(s.last() == dotted(a));
    let t = show6(v6.push(b)) + show4(none4);
    assert(t.drop_last() =~= show6(v6) + show4(none4));
    assert(t.last() == ipv6_text(b));
}

/// Dots and backslashes in an instance are escaped one by one with a backslash,
/// and nothing else is.
pub proof fn dots_and_backslashes_are_escaped(name: Seq<char>, c: char)
    ensures
        escaped(Seq::empty()).len() == 0,
        c == '.' || c == '\\' ==> escaped(name.push(c)) == escaped(name) + seq!['\\', c],
        c != '.' && c != '\\' ==> escaped(name.push(c)) == escaped(name).push(c),
{
    assert(name.push(c).drop_last() =~= name);
    if c == '.' || c == '\\' {
        assert(escaped(name.push(c)) =~= escaped(name) + seq!['\\', c]);
    }
}

} // verus!
