//! A/AAAA answers for one-shot mDNS resolvers (RFC 6762 §5.1, §6.7), and the
//! decisions of the thread that gives them.
//!
//! An answer echoes the transaction id of the query, carries a TTL of ten
//! seconds and no cache-flush bit, and takes its addresses from the interface
//! on which the query came in.

use vstd::prelude::*;

use crate::bytes::{
    be128, be16, be16_value, be32, big_endian, bytes_stand_for_their_number, push_be16, push_be32,
    read_be16,
};
use crate::dns::{
    dotted_name, encode_name, name_at, name_end, name_reads_back, plain_labels, read_name,
    wire_name, MAX_STEPS,
};
use crate::net::{IpAddr, Ipv4Addr, Ipv6Addr};
use crate::order::lemma_filter_has;
use crate::text::{
    lemma_filter_push, lemma_lower_trimmed, lemma_trimmed_ends, lemma_trimmed_same, lower,
    lower_char, lowercase, texts, trim, trimmed,
};
use crate::value::{copy_list, same_lists, views, Value};

verus! {

/// IPv4 address bound to a specific interface (for per-iface replies).
#[derive(Debug, PartialEq, Eq)]
pub struct IfaceAddr4 {
    /// Kernel interface name, e.g. `"eth0"` / `"wlan0"`.
    pub iface: String,
    pub addr: Ipv4Addr,
    pub mask: Ipv4Addr,
    pub ifindex: u32,
}

/// IPv6 address bound to a specific interface (for per-iface replies).
#[derive(Debug, PartialEq, Eq)]
pub struct IfaceAddr6 {
    /// Kernel interface name, e.g. `"eth0"` / `"wlan0"`.
    pub iface: String,
    pub addr: Ipv6Addr,
    pub ifindex: u32,
}

/// Hosts and addresses answered for A/AAAA queries.
#[derive(Debug, PartialEq, Eq)]
pub struct AnswerSet {
    /// Normalized hosts, e.g. `"bigfred.local."`.
    pub hosts: Vec<String>,
    /// Preferred IPv4 addresses with netmask and ifindex.
    pub v4: Vec<IfaceAddr4>,
    /// Preferred global/ULA IPv6 addresses with ifindex.
    pub v6: Vec<IfaceAddr6>,
    /// Configured extra interface-name prefixes to skip.
    pub skip_interfaces: Vec<String>,
    /// Optional allowlist of interface-name prefixes.
    pub interfaces: Vec<String>,
}

/// What an [`IfaceAddr4`] stands for.
#[verifier::ext_equal]
pub struct Addr4View {
    pub iface: Seq<char>,
    pub addr: Ipv4Addr,
    pub mask: Ipv4Addr,
    pub ifindex: u32,
}

/// What an [`IfaceAddr6`] stands for.
#[verifier::ext_equal]
pub struct Addr6View {
    pub iface: Seq<char>,
    pub addr: Ipv6Addr,
    pub ifindex: u32,
}

/// What an [`AnswerSet`] stands for.
#[verifier::ext_equal]
pub struct AnswersView {
    pub hosts: Seq<Seq<char>>,
    pub v4: Seq<Addr4View>,
    pub v6: Seq<Addr6View>,
    pub skip_interfaces: Seq<Seq<char>>,
    pub interfaces: Seq<Seq<char>>,
}

impl View for IfaceAddr4 {
    type V = Addr4View;

    open spec fn view(&self) -> Addr4View {
        Addr4View {
            iface: self.iface@,
            addr: self.addr,
            mask: self.mask,
            ifindex: self.ifindex,
        }
    }
}

impl View for IfaceAddr6 {
    type V = Addr6View;

    open spec fn view(&self) -> Addr6View {
        Addr6View { iface: self.iface@, addr: self.addr, ifindex: self.ifindex }
    }
}

impl View for AnswerSet {
    type V = AnswersView;

    open spec fn view(&self) -> AnswersView {
        AnswersView {
            hosts: texts(self.hosts@),
            v4: views(self.v4@),
            v6: views(self.v6@),
            skip_interfaces: texts(self.skip_interfaces@),
            interfaces: texts(self.interfaces@),
        }
    }
}

impl Value for IfaceAddr4 {
    fn same(&self, other: &Self) -> (r: bool) {
        self.iface.same(&other.iface) && self.addr == other.addr && self.mask == other.mask
            && self.ifindex == other.ifindex
    }

    fn copied(&self) -> (r: Self) {
        IfaceAddr4 {
            iface: self.iface.copied(),
            addr: self.addr,
            mask: self.mask,
            ifindex: self.ifindex,
        }
    }
}

impl Value for IfaceAddr6 {
    fn same(&self, other: &Self) -> (r: bool) {
        self.iface.same(&other.iface) && self.addr == other.addr && self.ifindex == other.ifindex
    }

    fn copied(&self) -> (r: Self) {
        IfaceAddr6 { iface: self.iface.copied(), addr: self.addr, ifindex: self.ifindex }
    }
}

impl Value for AnswerSet {
    fn same(&self, other: &Self) -> (r: bool) {
        same_lists(&self.hosts, &other.hosts) && same_lists(&self.v4, &other.v4) && same_lists(
            &self.v6,
            &other.v6,
        ) && same_lists(&self.skip_interfaces, &other.skip_interfaces) && same_lists(
            &self.interfaces,
            &other.interfaces,
        )
    }

    fn copied(&self) -> (r: Self) {
        AnswerSet {
            hosts: copy_list(&self.hosts),
            v4: copy_list(&self.v4),
            v6: copy_list(&self.v6),
            skip_interfaces: copy_list(&self.skip_interfaces),
            interfaces: copy_list(&self.interfaces),
        }
    }
}

impl Clone for IfaceAddr4 {
    fn clone(&self) -> (r: Self)
        ensures
            r@ == self@,
    {
        self.copied()
    }
}

impl Clone for IfaceAddr6 {
    fn clone(&self) -> (r: Self)
        ensures
            r@ == self@,
    {
        self.copied()
    }
}

impl Clone for AnswerSet {
    fn clone(&self) -> (r: Self)
        ensures
            r@ == self@,
    {
        self.copied()
    }
}

impl Default for AnswerSet {
    /// No hosts and no addresses.
    fn default() -> (r: Self)
        ensures
            r@ == (AnswersView {
                hosts: Seq::empty(),
                v4: Seq::empty(),
                v6: Seq::empty(),
                skip_interfaces: Seq::empty(),
                interfaces: Seq::empty(),
            }),
    {
        let r = AnswerSet {
            hosts: Vec::new(),
            v4: Vec::new(),
            v6: Vec::new(),
            skip_interfaces: Vec::new(),
            interfaces: Vec::new(),
        };
        proof {
            assert(texts(r.hosts@) =~= Seq::empty());
            assert(views(r.v4@) =~= Seq::empty());
            assert(views(r.v6@) =~= Seq::empty());
        }
        r
    }
}

pub const MDNS_PORT: u16 = 5353;

pub const LEGACY_TTL: u32 = 10;

pub const QTYPE_A: u16 = 1;

pub const QTYPE_AAAA: u16 = 28;

pub const QTYPE_ANY: u16 = 255;

/// Header flags of an authoritative answer.
pub const HEADER_QR_AA: u16 = 0x8400;

/// Parsed A/AAAA/ANY query (first question only).
#[derive(Debug, PartialEq, Eq)]
pub struct ParsedQuery {
    pub id: u16,
    /// Lowercased name with trailing dot.
    pub qname: String,
    pub qtype: u16,
    pub qclass: u16,
}

/// What a query asks.
#[verifier::ext_equal]
pub struct QueryView {
    pub id: u16,
    pub qname: Seq<char>,
    pub qtype: u16,
    pub qclass: u16,
}

impl View for ParsedQuery {
    type V = QueryView;

    open spec fn view(&self) -> QueryView {
        QueryView { id: self.id, qname: self.qname@, qtype: self.qtype, qclass: self.qclass }
    }
}

/// Whether a query type asks for addresses.
pub open spec fn address_type(qtype: int) -> bool {
    qtype == QTYPE_A || qtype == QTYPE_AAAA || qtype == QTYPE_ANY
}

/// The query in a packet: not a response, with at least one question, the
/// first of which can be read, is of class IN and asks for addresses.
pub open spec fn query_in(packet: Seq<u8>) -> Option<QueryView> {
    if packet.len() < 12 || packet[2] >= 0x80 || be16_value(packet[4], packet[5]) == 0 {
        None
    } else {
        match name_at(packet, 12) {
            None => None,
            Some(qname) => {
                let end = name_end(packet, 12, MAX_STEPS as nat);
                let qtype = be16_value(packet[end], packet[end + 1]);
                let qclass = be16_value(packet[end + 2], packet[end + 3]);
                if end + 4 > packet.len() || qclass % 0x8000 != 1 || !address_type(qtype) {
                    None
                } else {
                    Some(
                        QueryView {
                            id: be16_value(packet[0], packet[1]) as u16,
                            qname,
                            qtype: qtype as u16,
                            qclass: qclass as u16,
                        },
                    )
                }
            },
        }
    }
}

/// Parse a DNS query packet; returns [`None`] when the packet is not an
/// A/AAAA/ANY query we should answer.
pub fn parse_query(packet: &[u8]) -> (r: Option<ParsedQuery>)
    ensures
        match r {
            Some(q) => query_in(packet@) == Some(q@),
            None => query_in(packet@) is None,
        },
{
    if packet.len() < 12 {
        return None;
    }
    let id: u16 = read_be16(packet, 0);
    if packet[2] >= 0x80 {
        return None;
    }
    let qdcount: u16 = read_be16(packet, 4);
    if qdcount == 0 {
        return None;
    }
    match read_name(packet, 12) {
        None => None,
        Some((qname, pos)) => {
            if packet.len() - pos < 4 {
                return None;
            }
            let qtype: u16 = read_be16(packet, pos);
            let qclass: u16 = read_be16(packet, pos + 2);
            if qclass % 0x8000 != 1 {
                return None;
            }
            if qtype != QTYPE_A && qtype != QTYPE_AAAA && qtype != QTYPE_ANY {
                return None;
            }
            Some(ParsedQuery { id, qname, qtype, qclass })
        },
    }
}

/// Whether `querier` is in the subnet of `addr`.
pub open spec fn near(addr: Ipv4Addr, mask: Ipv4Addr, querier: Ipv4Addr) -> bool {
    addr.bits & mask.bits == querier.bits & mask.bits
}

fn same_subnet(addr: Ipv4Addr, mask: Ipv4Addr, querier: Ipv4Addr) -> (r: bool)
    ensures
        r == near(addr, mask, querier),
{
    addr.bits & mask.bits == querier.bits & mask.bits
}

/// The test for an IPv4 address of one interface.
pub open spec fn on_iface4(idx: u32) -> spec_fn(IfaceAddr4) -> bool {
    |a: IfaceAddr4| a.ifindex == idx
}

/// The test for an IPv6 address of one interface.
pub open spec fn on_iface6(idx: u32) -> spec_fn(IfaceAddr6) -> bool {
    |a: IfaceAddr6| a.ifindex == idx
}

/// The test for an IPv4 address in whose subnet the querier is.
pub open spec fn near_to(querier: Ipv4Addr) -> spec_fn(IfaceAddr4) -> bool {
    |a: IfaceAddr4| near(a.addr, a.mask, querier)
}

/// The addresses of a list.
pub open spec fn addrs4(s: Seq<IfaceAddr4>) -> Seq<Ipv4Addr> {
    s.map_values(|a: IfaceAddr4| a.addr)
}

/// The addresses of a list.
pub open spec fn addrs6(s: Seq<IfaceAddr6>) -> Seq<Ipv6Addr> {
    s.map_values(|a: IfaceAddr6| a.addr)
}

/// Those in the querier's subnet, or all where there is none.
pub open spec fn nearest4(s: Seq<IfaceAddr4>, querier: Ipv4Addr) -> Seq<IfaceAddr4> {
    if s.filter(near_to(querier)).len() > 0 {
        s.filter(near_to(querier))
    } else {
        s
    }
}

/// The addresses to look among: those of the receiving interface, or all where
/// it is not known or has none.
pub open spec fn local4(s: Seq<IfaceAddr4>, ifindex: Option<u32>) -> Seq<IfaceAddr4> {
    match ifindex {
        Some(idx) if s.filter(on_iface4(idx)).len() > 0 => s.filter(on_iface4(idx)),
        _ => s,
    }
}

/// The addresses to look among: those of the receiving interface, or all where
/// it is not known or has none.
pub open spec fn local6(s: Seq<IfaceAddr6>, ifindex: Option<u32>) -> Seq<IfaceAddr6> {
    match ifindex {
        Some(idx) if s.filter(on_iface6(idx)).len() > 0 => s.filter(on_iface6(idx)),
        _ => s,
    }
}

/// Picks the elements of `v4` on the given interface (where one is given) and
/// in the querier's subnet (where asked for).
fn pick4(v4: &[IfaceAddr4], ifindex: Option<u32>, subnet_of: Option<Ipv4Addr>) -> (r: Vec<
    Ipv4Addr,
>)
    ensures
        r@ == addrs4(
            match (ifindex, subnet_of) {
                (None, None) => v4@,
                (Some(idx), None) => v4@.filter(on_iface4(idx)),
                (None, Some(q)) => v4@.filter(near_to(q)),
                (Some(idx), Some(q)) => v4@.filter(on_iface4(idx)).filter(near_to(q)),
            },
        ),
{
    let mut out: Vec<Ipv4Addr> = Vec::new();
    let ghost mut kept: Seq<IfaceAddr4> = Seq::empty();
    let ghost first = |a: IfaceAddr4| ifindex matches Some(idx) ==> a.ifindex == idx;
    let ghost second = |a: IfaceAddr4| subnet_of matches Some(q) ==> near(a.addr, a.mask, q);
    let mut i: usize = 0;
    proof {
        reveal(Seq::filter);
        assert(v4@.take(0) =~= Seq::<IfaceAddr4>::empty());
        assert(addrs4(kept) =~= out@);
    }
    while i < v4.len()
        invariant
            i <= v4@.len(),
            first == (|a: IfaceAddr4| ifindex matches Some(idx) ==> a.ifindex == idx),
            second == (|a: IfaceAddr4| subnet_of matches Some(q) ==> near(a.addr, a.mask, q)),
            kept == v4@.take(i as int).filter(first).filter(second),
            out@ == addrs4(kept),
        decreases v4@.len() - i,
    {
        let on = match ifindex {
            Some(idx) => v4[i].ifindex == idx,
            None => true,
        };
        let close = match subnet_of {
            Some(q) => same_subnet(v4[i].addr, v4[i].mask, q),
            None => true,
        };
        let ghost x = v4@[i as int];
        proof {
            assert(v4@.take(i + 1) =~= v4@.take(i as int).push(x));
            lemma_filter_push(v4@.take(i as int), x, first);
            lemma_filter_push(v4@.take(i as int).filter(first), x, second);
        }
        if on && close {
            out.push(v4[i].addr);
            proof {
                assert(addrs4(kept.push(x)) =~= addrs4(kept).push(x.addr));
                kept = kept.push(x);
            }
        }
        i += 1;
    }
    proof {
        assert(v4@.take(i as int) =~= v4@);
        match ifindex {
            Some(idx) => {
                assert(first =~= on_iface4(idx));
            },
            None => {
                lemma_filter_all(v4@, first);
            },
        }
        match subnet_of {
            Some(q) => {
                assert(second =~= near_to(q));
            },
            None => {
                lemma_filter_all(v4@.filter(first), second);
            },
        }
    }
    out
}

/// Filtering a list of which everything is kept gives the list.
pub proof fn lemma_filter_all<A>(s: Seq<A>, keep: spec_fn(A) -> bool)
    requires
        forall|k: int| 0 <= k < s.len() ==> keep(#[trigger] s[k]),
    ensures
        s.filter(keep) == s,
    decreases s.len(),
{
    reveal(Seq::filter);
    if s.len() > 0 {
        assert(keep(s[s.len() - 1]));
        lemma_filter_all(s.drop_last(), keep);
        assert(s.drop_last().push(s.last()) =~= s);
    }
}

/// Prefer addresses on the receiving ifindex; within those, same-subnet;
/// otherwise fall back to same-subnet globally, then all.
pub fn choose_v4_for_iface(answers: &AnswerSet, querier: Ipv4Addr, ifindex: Option<u32>) -> (r: Vec<
    Ipv4Addr,
>)
    ensures
        r@ == addrs4(nearest4(local4(answers.v4@, ifindex), querier)),
{
    if let Some(idx) = ifindex {
        let here = pick4(&answers.v4, Some(idx), None);
        if here.len() > 0 {
            let close = pick4(&answers.v4, Some(idx), Some(querier));
            if close.len() > 0 {
                return close;
            }
            return here;
        }
    }
    choose_v4(answers, querier)
}

/// Prefer same-subnet IPv4 addresses; otherwise all configured v4.
pub fn choose_v4(answers: &AnswerSet, querier: Ipv4Addr) -> (r: Vec<Ipv4Addr>)
    ensures
        r@ == addrs4(nearest4(answers.v4@, querier)),
{
    let close = pick4(&answers.v4, None, Some(querier));
    if close.len() > 0 {
        return close;
    }
    pick4(&answers.v4, None, None)
}

/// Prefer IPv6 addresses on the receiving ifindex; otherwise all configured v6.
pub fn choose_v6_for_iface(answers: &AnswerSet, ifindex: Option<u32>) -> (r: Vec<Ipv6Addr>)
    ensures
        r@ == addrs6(local6(answers.v6@, ifindex)),
{
    let mut all: Vec<Ipv6Addr> = Vec::new();
    let mut here: Vec<Ipv6Addr> = Vec::new();
    let ghost keep = |a: IfaceAddr6| ifindex matches Some(idx) && a.ifindex == idx;
    let ghost v6 = answers.v6@;
    let ghost mut kept: Seq<IfaceAddr6> = Seq::empty();
    let mut i: usize = 0;
    proof {
        reveal(Seq::filter);
        assert(addrs6(kept) =~= here@);
        assert(addrs6(v6.take(0)) =~= all@);
    }
    while i < answers.v6.len()
        invariant
            i <= v6.len(),
            v6 == answers.v6@,
            keep == (|a: IfaceAddr6| ifindex matches Some(idx) && a.ifindex == idx),
            all@ == addrs6(v6.take(i as int)),
            kept == v6.take(i as int).filter(keep),
            here@ == addrs6(kept),
        decreases v6.len() - i,
    {
        let ghost x = v6[i as int];
        proof {
            assert(v6.take(i + 1) =~= v6.take(i as int).push(x));
            lemma_filter_push(v6.take(i as int), x, keep);
            assert(addrs6(v6.take(i + 1)) =~= addrs6(v6.take(i as int)).push(x.addr));
            assert(addrs6(kept.push(x)) =~= addrs6(kept).push(x.addr));
        }
        let on = match ifindex {
            Some(idx) => answers.v6[i].ifindex == idx,
            None => false,
        };
        if on {
            here.push(answers.v6[i].addr);
            proof {
                kept = kept.push(x);
            }
        }
        all.push(answers.v6[i].addr);
        i += 1;
    }
    proof {
        assert(v6.take(i as int) =~= v6);
        if let Some(idx) = ifindex {
            assert(keep =~= on_iface6(idx));
        } else {
            crate::order::lemma_filter_none(v6, keep);
        }
    }
    if here.len() > 0 {
        here
    } else {
        all
    }
}

/// A name as it is compared: without white space around, in lower case and
/// with a trailing dot.
pub open spec fn lookup_name(name: Seq<char>) -> Seq<char> {
    let n = lower(trimmed(name));
    if n.len() > 0 && n.last() == '.' {
        n
    } else {
        n.push('.')
    }
}

/// Whether one of the hosts is the one asked for.
pub open spec fn known_host(hosts: Seq<Seq<char>>, qname: Seq<char>) -> bool {
    exists|i: int| 0 <= i < hosts.len() && lookup_name(#[trigger] hosts[i]) == lookup_name(qname)
}

fn normalize_lookup_name(name: &str) -> (r: String)
    ensures
        r@ == lookup_name(name@),
{
    let mut n = lowercase(trim(name).as_str());
    if !crate::text::ends_with(n.as_str(), ".") {
        proof {
            reveal_strlit(".");
            if n@.len() > 0 && n@.last() == '.' {
                assert(n@.skip(n@.len() - 1) =~= "."@);
            }
        }
        n.push('.');
    } else {
        proof {
            reveal_strlit(".");
            assert(n@.skip(n@.len() - 1)[0] == '.');
        }
    }
    n
}

/// Case-insensitive host match against normalized names (trailing dot).
pub fn hosts_match(hosts: &[String], qname: &str) -> (r: bool)
    ensures
        r == known_host(texts(hosts@), qname@),
{
    let q = normalize_lookup_name(qname);
    let ghost all = texts(hosts@);
    let mut i: usize = 0;
    while i < hosts.len()
        invariant
            i <= hosts@.len(),
            all == texts(hosts@),
            q@ == lookup_name(qname@),
            forall|k: int| 0 <= k < i ==> lookup_name(#[trigger] all[k]) != q@,
        decreases hosts@.len() - i,
    {
        if normalize_lookup_name(hosts[i].as_str()) == q {
            assert(lookup_name(all[i as int]) == q@);
            return true;
        }
        i += 1;
    }
    false
}

/// The answers to a query: record types with their data.
pub open spec fn records_for(
    qtype: u16,
    v4: Seq<IfaceAddr4>,
    v6: Seq<IfaceAddr6>,
    querier: IpAddr,
    ifindex: Option<u32>,
) -> Seq<(u16, Seq<u8>)> {
    let from = match querier {
        IpAddr::V4(ip) => ip,
        IpAddr::V6(_) => Ipv4Addr { bits: 0 },
    };
    let a = addrs4(nearest4(local4(v4, ifindex), from)).map_values(
        |ip: Ipv4Addr| (QTYPE_A, be32(ip.bits)),
    );
    let aaaa = addrs6(local6(v6, ifindex)).map_values(
        |ip: Ipv6Addr| (QTYPE_AAAA, be128(ip.bits)),
    );
    if qtype == QTYPE_A {
        a
    } else if qtype == QTYPE_AAAA {
        aaaa
    } else if qtype == QTYPE_ANY {
        a + aaaa
    } else {
        Seq::empty()
    }
}

/// One answer on the wire: class IN without the cache-flush bit.
pub open spec fn wire_record(name: Seq<u8>, record: (u16, Seq<u8>)) -> Seq<u8> {
    name + be16(record.0) + be16(1) + be32(LEGACY_TTL) + be16(record.1.len() as u16) + record.1
}

/// Answers on the wire, one behind the other.
pub open spec fn wire_records(name: Seq<u8>, records: Seq<(u16, Seq<u8>)>) -> Seq<u8>
    decreases records.len(),
{
    if records.len() == 0 {
        Seq::empty()
    } else {
        wire_records(name, records.drop_last()) + wire_record(name, records.last())
    }
}

/// The header of an answer to the query `id` with `count` records.
pub open spec fn wire_header(id: u16, count: nat) -> Seq<u8> {
    be16(id) + be16(HEADER_QR_AA) + be16(1) + be16((count % 0x1_0000) as u16) + be16(0) + be16(0)
}

/// The question of an answer, with the unicast-response bit cleared.
pub open spec fn wire_question(query: QueryView) -> Seq<u8> {
    wire_name(query.qname) + be16(query.qtype) + be16((query.qclass % 0x8000) as u16)
}

/// The answer to a query: none where the host is not ours or there is no
/// address to give.
pub open spec fn response_to(
    query: QueryView,
    hosts: Seq<Seq<char>>,
    records: Seq<(u16, Seq<u8>)>,
) -> Option<Seq<u8>> {
    if !known_host(hosts, query.qname) || records.len() == 0 {
        None
    } else {
        Some(
            wire_header(query.id, records.len()) + wire_question(query) + wire_records(
                wire_name(query.qname),
                records,
            ),
        )
    }
}

/// The view of a list of records.
spec fn record_views(s: Seq<(u16, Vec<u8>)>) -> Seq<(u16, Seq<u8>)> {
    s.map_values(|r: (u16, Vec<u8>)| (r.0, r.1@))
}

/// Appends the answers for the wire.
fn push_records(out: &mut Vec<u8>, name: &[u8], records: &[(u16, Vec<u8>)])
    requires
        forall|k: int| 0 <= k < records@.len() ==> (#[trigger] records@[k]).1@.len() <= 16,
    ensures
        final(out)@ == old(out)@ + wire_records(name@, record_views(records@)),
{
    let ghost start = out@;
    let ghost all = record_views(records@);
    let mut i: usize = 0;
    proof {
        assert(start + wire_records(name@, all.take(0)) =~= start);
    }
    while i < records.len()
        invariant
            i <= records@.len(),
            all == record_views(records@),
            forall|k: int| 0 <= k < records@.len() ==> (#[trigger] records@[k]).1@.len() <= 16,
            out@ == start + wire_records(name@, all.take(i as int)),
        decreases records@.len() - i,
    {
        let ghost before = out@;
        let data = &records[i].1;
        out.extend_from_slice(name);
        push_be16(out, records[i].0);
        push_be16(out, 1);
        push_be32(out, LEGACY_TTL);
        push_be16(out, data.len() as u16);
        out.extend_from_slice(data);
        proof {
            assert(all.take(i + 1).drop_last() =~= all.take(i as int));
            assert(all.take(i + 1).last() == (records@[i as int].0, data@));
            assert(out@ =~= before + wire_record(name@, all[i as int]));
            assert(out@ =~= start + wire_records(name@, all.take(i + 1)));
        }
        i += 1;
    }
    proof {
        assert(all.take(i as int) =~= all);
    }
}

/// Collects the answers to a query.
fn collect_records(
    qtype: u16,
    answers: &AnswerSet,
    querier: IpAddr,
    ifindex: Option<u32>,
) -> (r: Vec<(u16, Vec<u8>)>)
    ensures
        record_views(r@) == records_for(qtype, answers.v4@, answers.v6@, querier, ifindex),
        forall|k: int| 0 <= k < r@.len() ==> (#[trigger] r@[k]).1@.len() <= 16,
{
    let mut records: Vec<(u16, Vec<u8>)> = Vec::new();
    let ghost a4 = |ip: Ipv4Addr| (QTYPE_A, be32(ip.bits));
    let ghost a6 = |ip: Ipv6Addr| (QTYPE_AAAA, be128(ip.bits));
    let ghost mut first: Seq<(u16, Seq<u8>)> = Seq::empty();
    proof {
        assert(record_views(records@) =~= first);
    }
    if qtype == QTYPE_A || qtype == QTYPE_ANY {
        let from = match querier {
            IpAddr::V4(ip) => ip,
            IpAddr::V6(_) => Ipv4Addr { bits: 0 },
        };
        let ips = choose_v4_for_iface(answers, from, ifindex);
        let mut i: usize = 0;
        proof {
            assert(record_views(records@) =~= ips@.take(0).map_values(a4));
        }
        while i < ips.len()
            invariant
                i <= ips@.len(),
                a4 == (|ip: Ipv4Addr| (QTYPE_A, be32(ip.bits))),
                record_views(records@) == ips@.take(i as int).map_values(a4),
                forall|k: int| 0 <= k < records@.len() ==> (#[trigger] records@[k]).1@.len() <= 16,
            decreases ips@.len() - i,
        {
            let ghost before = records@;
            records.push((QTYPE_A, ips[i].octets()));
            proof {
                assert(ips@.take(i + 1).map_values(a4) =~= ips@.take(i as int).map_values(a4).push(
                    a4(ips@[i as int]),
                ));
                assert(record_views(records@) =~= record_views(before).push(
                    (QTYPE_A, records@.last().1@),
                ));
            }
            i += 1;
        }
        proof {
            assert(ips@.take(i as int) =~= ips@);
            first = ips@.map_values(a4);
        }
    }
    if qtype == QTYPE_AAAA || qtype == QTYPE_ANY {
        let ips = choose_v6_for_iface(answers, ifindex);
        let mut i: usize = 0;
        proof {
            assert(record_views(records@) =~= first + ips@.take(0).map_values(a6));
        }
        while i < ips.len()
            invariant
                i <= ips@.len(),
                a6 == (|ip: Ipv6Addr| (QTYPE_AAAA, be128(ip.bits))),
                record_views(records@) == first + ips@.take(i as int).map_values(a6),
                forall|k: int| 0 <= k < records@.len() ==> (#[trigger] records@[k]).1@.len() <= 16,
            decreases ips@.len() - i,
        {
            let ghost before = records@;
            records.push((QTYPE_AAAA, ips[i].octets()));
            proof {
                assert(first + ips@.take(i + 1).map_values(a6) =~= (first + ips@.take(
                    i as int,
                ).map_values(a6)).push(a6(ips@[i as int])));
                assert(record_views(records@) =~= record_views(before).push(
                    (QTYPE_AAAA, records@.last().1@),
                ));
            }
            i += 1;
        }
        proof {
            assert(ips@.take(i as int) =~= ips@);
            if qtype == QTYPE_AAAA {
                assert(first + ips@.map_values(a6) =~= ips@.map_values(a6));
            }
        }
    }
    records
}

/// Build a response, or [`None`] when the query should be ignored.
pub fn build_response(
    query: &ParsedQuery,
    answers: &AnswerSet,
    querier: IpAddr,
    ifindex: Option<u32>,
) -> (r: Option<Vec<u8>>)
    ensures
        match r {
            Some(out) => response_to(
                query@,
                texts(answers.hosts@),
                records_for(query.qtype, answers.v4@, answers.v6@, querier, ifindex),
            ) == Some(out@),
            None => response_to(
                query@,
                texts(answers.hosts@),
                records_for(query.qtype, answers.v4@, answers.v6@, querier, ifindex),
            ) is None,
        },
{
    if !hosts_match(&answers.hosts, query.qname.as_str()) {
        return None;
    }
    let records = collect_records(query.qtype, answers, querier, ifindex);
    if records.len() == 0 {
        return None;
    }
    let name = encode_name(query.qname.as_str());
    let mut out: Vec<u8> = Vec::new();
    push_be16(&mut out, query.id);
    push_be16(&mut out, HEADER_QR_AA);
    push_be16(&mut out, 1);
    push_be16(&mut out, (records.len() % 0x1_0000) as u16);
    push_be16(&mut out, 0);
    push_be16(&mut out, 0);
    proof {
        assert(out@ =~= wire_header(query.id, records@.len()));
    }
    out.extend_from_slice(&name);
    push_be16(&mut out, query.qtype);
    push_be16(&mut out, query.qclass % 0x8000);
    proof {
        assert(out@ =~= wire_header(query.id, records@.len()) + wire_question(query@));
    }
    push_records(&mut out, &name, &records);
    Some(out)
}

/// Signal to the responder: rejoin the multicast groups, or recreate the
/// sockets first, although the address set is unchanged.
#[derive(Debug, PartialEq, Eq)]
pub struct MembershipRefresh {
    epoch: u64,
    rebind: bool,
}

impl MembershipRefresh {
    /// The number of requests so far, modulo 2⁶⁴.
    pub closed spec fn spec_epoch(&self) -> u64 {
        self.epoch
    }

    /// Whether a rebind was requested and not taken yet.
    pub closed spec fn rebind_wanted(&self) -> bool {
        self.rebind
    }

    /// No requests yet.
    pub fn new() -> (r: Self)
        ensures
            r.spec_epoch() == 0,
            !r.rebind_wanted(),
    {
        MembershipRefresh { epoch: 0, rebind: false }
    }

    /// Force leave+join on the existing sockets (netlink without IP churn).
    pub fn request_rejoin(&mut self)
        ensures
            final(self).spec_epoch() == old(self).spec_epoch().wrapping_add(1),
            final(self).rebind_wanted() == old(self).rebind_wanted(),
    {
        self.epoch = self.epoch.wrapping_add(1);
    }

    /// Drop and recreate UDP sockets, then join (suspend/resume).
    pub fn request_rebind(&mut self)
        ensures
            final(self).spec_epoch() == old(self).spec_epoch().wrapping_add(1),
            final(self).rebind_wanted(),
    {
        self.rebind = true;
        self.epoch = self.epoch.wrapping_add(1);
    }

    /// Current epoch. The responder rejoins whenever this value changes.
    pub fn epoch(&self) -> (r: u64)
        ensures
            r == self.spec_epoch(),
    {
        self.epoch
    }

    /// Consume the rebind flag. True once per [`MembershipRefresh::request_rebind`].
    pub fn take_rebind(&mut self) -> (r: bool)
        ensures
            r == old(self).rebind_wanted(),
            !final(self).rebind_wanted(),
            final(self).spec_epoch() == old(self).spec_epoch(),
    {
        let r = self.rebind;
        self.rebind = false;
        r
    }
}

impl Default for MembershipRefresh {
    fn default() -> (r: Self)
        ensures
            r.spec_epoch() == 0,
            !r.rebind_wanted(),
    {
        MembershipRefresh::new()
    }
}

/// Whether the multicast memberships are to be looked at again: the answers
/// have changed, or a rejoin was requested.
pub fn memberships_need_refresh(changed: bool, epoch_changed: bool) -> (r: bool)
    ensures
        r == (changed || epoch_changed),
{
    changed || epoch_changed
}

/// Whether to leave and join again: on request, or where what is joined is not
/// what is wanted.
pub fn should_replace_memberships<T: Value>(joined: &[T], want: &[T], force: bool) -> (r: bool)
    ensures
        r == (force || views(joined@) != views(want@)),
{
    force || !same_lists(joined, want)
}

/// The reply to a packet, if it asks for an address that there is to give.
pub fn answer_packet(
    packet: &[u8],
    answers: &AnswerSet,
    querier: IpAddr,
    ifindex: Option<u32>,
) -> (r: Option<Vec<u8>>)
    ensures
        match r {
            Some(out) => query_in(packet@) matches Some(q) && response_to(
                q,
                texts(answers.hosts@),
                records_for(q.qtype, answers.v4@, answers.v6@, querier, ifindex),
            ) == Some(out@),
            None => query_in(packet@) matches Some(q) ==> response_to(
                q,
                texts(answers.hosts@),
                records_for(q.qtype, answers.v4@, answers.v6@, querier, ifindex),
            ) is None,
        },
{
    match parse_query(packet) {
        Some(query) => build_response(&query, answers, querier, ifindex),
        None => None,
    }
}

/// Neither case nor white space around a name matters when hosts are looked
/// up, nor does a missing trailing dot.
pub proof fn lookup_ignores_case_and_dot(hosts: Seq<Seq<char>>, qname: Seq<char>)
    ensures
        known_host(hosts, lower(qname)) == known_host(hosts, qname),
        known_host(hosts, trimmed(qname)) == known_host(hosts, qname),
        trimmed(qname).len() > 0 && trimmed(qname).last() != '.' ==> known_host(
            hosts,
            trimmed(qname).push('.'),
        ) == known_host(hosts, qname),
{
    let t = trimmed(qname);
    lemma_lower_trimmed(qname);
    lemma_lower_trimmed(t);
    lemma_trimmed_ends(qname);
    if t.len() > 0 {
        lemma_trimmed_same(t);
        let d = t.push('.');
        lemma_trimmed_same(d);
        assert(lower(d) =~= lower(t).push('.'));
        assert(lower(t).last() == lower_char(t.last()));
    } else {
        assert(trimmed(t) =~= t);
    }
    assert(lookup_name(lower(qname)) == lookup_name(qname));
    assert(lookup_name(t) == lookup_name(qname));
}

/// An answer begins with the id of the query and the flags of an authoritative
/// answer, has one question, and is no query itself.
pub proof fn answer_echoes_id(
    query: QueryView,
    hosts: Seq<Seq<char>>,
    records: Seq<(u16, Seq<u8>)>,
)
    requires
        response_to(query, hosts, records) is Some,
    ensures
        ({
            let out = response_to(query, hosts, records)->0;
            &&& out.len() > 12
            &&& be16_value(out[0], out[1]) == query.id
            &&& be16_value(out[2], out[3]) == HEADER_QR_AA
            &&& be16_value(out[4], out[5]) == 1
            &&& be16_value(out[6], out[7]) == records.len() % 0x1_0000
            &&& query_in(out) is None
        }),
{
    let out = response_to(query, hosts, records)->0;
    let n = (records.len() % 0x1_0000) as u16;
    let h = wire_header(query.id, records.len());
    assert(h.len() == 12);
    assert(out.len() >= 12 + wire_question(query).len());
    assert(wire_question(query).len() >= 4);
    assert forall|i: int| 0 <= i < 12 implies out[i] == h[i] by {}
    assert(h[0] == (query.id / 256) as u8 && h[1] == (query.id % 256) as u8);
    assert(h[2] == 0x84 && h[3] == 0);
    assert(h[4] == 0 && h[5] == 1);
    assert(h[6] == (n / 256) as u8 && h[7] == (n % 256) as u8);
}

/// A query for plain labels, as resolvers send it.
pub open spec fn wire_query(id: u16, labels: Seq<Seq<char>>, qtype: u16, qclass: u16) -> Seq<u8> {
    be16(id) + be16(0) + be16(1) + be16(0) + be16(0) + be16(0) + wire_name(dotted_name(labels))
        + be16(qtype) + be16(qclass)
}

/// A query for addresses is read back as it was asked, with the name in lower
/// case.
pub proof fn query_reads_back(id: u16, labels: Seq<Seq<char>>, qtype: u16, qclass: u16)
    requires
        plain_labels(labels),
        address_type(qtype as int),
        qclass % 0x8000 == 1,
    ensures
        query_in(wire_query(id, labels, qtype, qclass)) == Some(
            QueryView { id, qname: lower(dotted_name(labels)), qtype, qclass },
        ),
{
    let packet = wire_query(id, labels, qtype, qclass);
    let name = wire_name(dotted_name(labels));
    let before = be16(id) + be16(0) + be16(1) + be16(0) + be16(0) + be16(0);
    let behind = be16(qtype) + be16(qclass);
    assert(before.len() == 12);
    assert(packet =~= before + name + behind);
    name_reads_back(labels, before, behind);
    let end: int = 12 + name.len() as int;
    assert(packet[0] == (id / 256) as u8 && packet[1] == (id % 256) as u8);
    assert(packet[2] == 0 && packet[4] == 0 && packet[5] == 1);
    assert(packet[end] == (qtype / 256) as u8 && packet[end + 1] == (qtype % 256) as u8);
    assert(packet[end + 2] == (qclass / 256) as u8 && packet[end + 3] == (qclass % 256) as u8);
}

/// Where the receiving interface has an IPv4 address, every answer is an
/// address of that interface.
pub proof fn answers_stay_on_interface(v4: Seq<IfaceAddr4>, querier: Ipv4Addr, idx: u32, i: int)
    requires
        exists|k: int| 0 <= k < v4.len() && (#[trigger] v4[k]).ifindex == idx,
        0 <= i < nearest4(local4(v4, Some(idx)), querier).len(),
    ensures
        nearest4(local4(v4, Some(idx)), querier)[i].ifindex == idx,
        v4.contains(nearest4(local4(v4, Some(idx)), querier)[i]),
{
    let here = v4.filter(on_iface4(idx));
    let k = choose|k: int| 0 <= k < v4.len() && (#[trigger] v4[k]).ifindex == idx;
    lemma_filter_has(v4, on_iface4(idx), v4[k]);
    assert(v4.contains(v4[k]));
    assert(here.len() > 0);
    let r = nearest4(here, querier);
    assert(r.contains(r[i]));
    lemma_filter_has(here, near_to(querier), r[i]);
    assert(here.contains(r[i])) by {
        if here.filter(near_to(querier)).len() == 0 {
            assert(r == here);
        }
    }
    lemma_filter_has(v4, on_iface4(idx), r[i]);
}

/// Where the receiving interface has an IPv6 address, every answer is an
/// address of that interface.
pub proof fn answers_stay_on_interface6(v6: Seq<IfaceAddr6>, idx: u32, i: int)
    requires
        exists|k: int| 0 <= k < v6.len() && (#[trigger] v6[k]).ifindex == idx,
        0 <= i < local6(v6, Some(idx)).len(),
    ensures
        local6(v6, Some(idx))[i].ifindex == idx,
        v6.contains(local6(v6, Some(idx))[i]),
{
    let here = v6.filter(on_iface6(idx));
    let k = choose|k: int| 0 <= k < v6.len() && (#[trigger] v6[k]).ifindex == idx;
    lemma_filter_has(v6, on_iface6(idx), v6[k]);
    assert(v6.contains(v6[k]));
    assert(here.len() > 0);
    assert(here.contains(here[i]));
    lemma_filter_has(v6, on_iface6(idx), here[i]);
}

/// Where an address is in the querier's subnet, every answer is; otherwise all
/// addresses are answered.
pub proof fn same_subnet_is_preferred(v4: Seq<IfaceAddr4>, querier: Ipv4Addr, i: int)
    requires
        0 <= i < nearest4(v4, querier).len(),
    ensures
        (exists|k: int|
            0 <= k < v4.len() && near((#[trigger] v4[k]).addr, v4[k].mask, querier)) ==> near(
            nearest4(v4, querier)[i].addr,
            nearest4(v4, querier)[i].mask,
            querier,
        ),
        (forall|k: int|
            0 <= k < v4.len() ==> !near((#[trigger] v4[k]).addr, v4[k].mask, querier))
            ==> nearest4(v4, querier) == v4,
{
    let close = v4.filter(near_to(querier));
    if close.len() > 0 {
        assert(close.contains(close[i]));
        lemma_filter_has(v4, near_to(querier), close[i]);
    } else {
        assert forall|k: int| 0 <= k < v4.len() implies !near(
            (#[trigger] v4[k]).addr,
            v4[k].mask,
            querier,
        ) by {
            assert(v4.contains(v4[k]));
            lemma_filter_has(v4, near_to(querier), v4[k]);
        }
    }
}

/// A known host with an address of the asked kind is answered, whoever asks
/// and wherever the query came in.
pub proof fn known_hosts_are_answered(
    query: QueryView,
    hosts: Seq<Seq<char>>,
    v4: Seq<IfaceAddr4>,
    v6: Seq<IfaceAddr6>,
    querier: IpAddr,
    ifindex: Option<u32>,
)
    requires
        known_host(hosts, query.qname),
        (query.qtype == QTYPE_A || query.qtype == QTYPE_ANY) && v4.len() > 0 || (query.qtype
            == QTYPE_AAAA || query.qtype == QTYPE_ANY) && v6.len() > 0,
    ensures
        response_to(query, hosts, records_for(query.qtype, v4, v6, querier, ifindex)) is Some,
{
}

/// An answer to a query for plain labels names what was asked for, right
/// behind its header. Names are read in lower case.
pub proof fn answer_names_the_question(
    query: QueryView,
    labels: Seq<Seq<char>>,
    hosts: Seq<Seq<char>>,
    records: Seq<(u16, Seq<u8>)>,
)
    requires
        plain_labels(labels),
        query.qname == dotted_name(labels),
        response_to(query, hosts, records) is Some,
    ensures
        name_at(response_to(query, hosts, records)->0, 12) == Some(lower(query.qname)),
{
    let out = response_to(query, hosts, records)->0;
    let name = wire_name(query.qname);
    let head = wire_header(query.id, records.len());
    assert(head.len() == 12);
    let behind = out.skip(12 + name.len() as int);
    assert(out =~= head + name + behind);
    name_reads_back(labels, head, behind);
}

/// One answer as a resolver reads it.
#[verifier::ext_equal]
pub struct WireAnswer {
    pub name: Seq<u8>,
    pub type_: nat,
    pub class: nat,
    pub ttl: nat,
    pub data: Seq<u8>,
}

/// Where the answer at `at` ends, given the length of its name.
pub open spec fn answer_end(packet: Seq<u8>, at: int, name_len: nat) -> int {
    let p = at + name_len;
    p + 10 + big_endian(packet.subrange(p + 8, p + 10))
}

/// The answer at `at`, given the length of its name: name, type, class, time to
/// live, length of the data, and the data.
pub open spec fn answer_at(packet: Seq<u8>, at: int, name_len: nat) -> WireAnswer {
    let p = at + name_len;
    WireAnswer {
        name: packet.subrange(at, p),
        type_: big_endian(packet.subrange(p, p + 2)),
        class: big_endian(packet.subrange(p + 2, p + 4)),
        ttl: big_endian(packet.subrange(p + 4, p + 8)),
        data: packet.subrange(p + 10, answer_end(packet, at, name_len)),
    }
}

/// So many answers from `at` on, and where they end.
pub open spec fn answers_from(packet: Seq<u8>, at: int, name_len: nat, count: nat) -> (
    Seq<WireAnswer>,
    int,
)
    decreases count,
{
    if count == 0 {
        (Seq::empty(), at)
    } else {
        let rest = answers_from(
            packet,
            answer_end(packet, at, name_len),
            name_len,
            (count - 1) as nat,
        );
        (seq![answer_at(packet, at, name_len)] + rest.0, rest.1)
    }
}

/// Records on the wire begin with the first.
proof fn lemma_wire_records_first(name: Seq<u8>, records: Seq<(u16, Seq<u8>)>)
    requires
        records.len() > 0,
    ensures
        wire_records(name, records) == wire_record(name, records[0]) + wire_records(
            name,
            records.skip(1),
        ),
    decreases records.len(),
{
    if records.len() == 1 {
        assert(records.drop_last() =~= Seq::empty());
        assert(records.skip(1) =~= Seq::empty());
        assert(wire_records(name, records) =~= wire_record(name, records[0]) + wire_records(
            name,
            records.skip(1),
        ));
    } else {
        lemma_wire_records_first(name, records.drop_last());
        assert(records.drop_last().skip(1) =~= records.skip(1).drop_last());
        assert(records.skip(1).last() == records.last());
        assert(wire_records(name, records) =~= wire_record(name, records[0]) + wire_records(
            name,
            records.skip(1),
        ));
    }
}

/// One record is read back from the wire.
proof fn lemma_record_reads_back(
    before: Seq<u8>,
    name: Seq<u8>,
    record: (u16, Seq<u8>),
    behind: Seq<u8>,
)
    requires
        record.1.len() <= 0xffff,
    ensures
        ({
            let packet = before + wire_record(name, record) + behind;
            let at = before.len() as int;
            &&& answer_at(packet, at, name.len()) == (WireAnswer {
                name,
                type_: record.0 as nat,
                class: 1,
                ttl: 10,
                data: record.1,
            })
            &&& answer_end(packet, at, name.len()) == at + wire_record(name, record).len()
        }),
{
    let packet = before + wire_record(name, record) + behind;
    let at = before.len() as int;
    let p = at + name.len();
    let len = record.1.len() as u16;
    bytes_stand_for_their_number(record.0, LEGACY_TTL, 0);
    bytes_stand_for_their_number(1, 0, 0);
    bytes_stand_for_their_number(len, 0, 0);
    assert(packet.subrange(at, p) =~= name);
    assert(packet.subrange(p, p + 2) =~= be16(record.0));
    assert(packet.subrange(p + 2, p + 4) =~= be16(1));
    assert(packet.subrange(p + 4, p + 8) =~= be32(LEGACY_TTL));
    assert(packet.subrange(p + 8, p + 10) =~= be16(len));
    assert(packet.subrange(p + 10, p + 10 + len) =~= record.1);
}

/// Records are read back from the wire, one behind the other.
proof fn lemma_records_read_back(
    before: Seq<u8>,
    name: Seq<u8>,
    records: Seq<(u16, Seq<u8>)>,
)
    requires
        forall|i: int| 0 <= i < records.len() ==> (#[trigger] records[i]).1.len() <= 0xffff,
    ensures
        ({
            let packet = before + wire_records(name, records);
            let got = answers_from(packet, before.len() as int, name.len(), records.len());
            &&& got.0.len() == records.len()
            &&& got.1 == packet.len()
            &&& forall|i: int|
                0 <= i < records.len() ==> (#[trigger] got.0[i]) == (WireAnswer {
                    name,
                    type_: records[i].0 as nat,
                    class: 1,
                    ttl: 10,
                    data: records[i].1,
                })
        }),
    decreases records.len(),
{
    let packet = before + wire_records(name, records);
    if records.len() > 0 {
        let first = wire_record(name, records[0]);
        let rest = records.skip(1);
        lemma_wire_records_first(name, records);
        assert forall|i: int| 0 <= i < rest.len() implies (#[trigger] rest[i]).1.len()
            <= 0xffff by {
            assert(rest[i] == records[i + 1]);
        }
        lemma_records_read_back(before + first, name, rest);
        assert(packet =~= (before + first) + wire_records(name, rest));
        lemma_record_reads_back(before, name, records[0], wire_records(name, rest));
        let got = answers_from(packet, before.len() as int, name.len(), records.len());
        let tail = answers_from(packet, (before + first).len() as int, name.len(), rest.len());
        assert forall|i: int| 0 <= i < records.len() implies (#[trigger] got.0[i]) == (WireAnswer {
            name,
            type_: records[i].0 as nat,
            class: 1,
            ttl: 10,
            data: records[i].1,
        }) by {
            if i > 0 {
                assert(got.0[i] == tail.0[i - 1]);
                assert(rest[i - 1] == records[i]);
            }
        }
    }
}

/// Whether an IPv4 address is given as an answer: it is on the receiving
/// interface where that has any, and among those it is in the subnet of the
/// querier where any is.
pub open spec fn answers4(
    v4: Seq<IfaceAddr4>,
    querier: IpAddr,
    ifindex: Option<u32>,
    a: IfaceAddr4,
) -> bool {
    let from = match querier {
        IpAddr::V4(ip) => ip.bits,
        IpAddr::V6(_) => 0,
    };
    let here = exists|k: int| 0 <= k < v4.len() && Some((#[trigger] v4[k]).ifindex) == ifindex;
    let close = exists|k: int|
        0 <= k < v4.len() && (here ==> Some((#[trigger] v4[k]).ifindex) == ifindex)
            && v4[k].addr.bits & v4[k].mask.bits == from & v4[k].mask.bits;
    &&& here ==> Some(a.ifindex) == ifindex
    &&& close ==> a.addr.bits & a.mask.bits == from & a.mask.bits
}

/// Whether an IPv6 address is given as an answer: it is on the receiving
/// interface where that has any.
pub open spec fn answers6(v6: Seq<IfaceAddr6>, ifindex: Option<u32>, a: IfaceAddr6) -> bool {
    (exists|k: int| 0 <= k < v6.len() && Some((#[trigger] v6[k]).ifindex) == ifindex) ==> Some(
        a.ifindex,
    ) == ifindex
}

/// Filtering twice is filtering by both.
proof fn lemma_filter_twice<A>(
    s: Seq<A>,
    f: spec_fn(A) -> bool,
    g: spec_fn(A) -> bool,
    both: spec_fn(A) -> bool,
)
    requires
        forall|x: A| #[trigger] both(x) == (f(x) && g(x)),
    ensures
        s.filter(f).filter(g) == s.filter(both),
    decreases s.len(),
{
    reveal(Seq::filter);
    if s.len() > 0 {
        lemma_filter_twice(s.drop_last(), f, g, both);
        assert(both(s.last()) == (f(s.last()) && g(s.last())));
        if f(s.last()) {
            lemma_filter_push(s.drop_last().filter(f), s.last(), g);
        }
    }
}

/// The chosen IPv4 addresses are those that answer, in their order.
proof fn lemma_chosen4(v4: Seq<IfaceAddr4>, querier: IpAddr, ifindex: Option<u32>)
    ensures
        ({
            let from = match querier {
                IpAddr::V4(ip) => ip,
                IpAddr::V6(_) => Ipv4Addr { bits: 0 },
            };
            nearest4(local4(v4, ifindex), from) == v4.filter(
                |a: IfaceAddr4| answers4(v4, querier, ifindex, a),
            )
        }),
{
    let from = match querier {
        IpAddr::V4(ip) => ip,
        IpAddr::V6(_) => Ipv4Addr { bits: 0 },
    };
    let picks = |a: IfaceAddr4| answers4(v4, querier, ifindex, a);
    let here = exists|k: int| 0 <= k < v4.len() && Some((#[trigger] v4[k]).ifindex) == ifindex;
    let local = |a: IfaceAddr4| here ==> Some(a.ifindex) == ifindex;
    let pool = local4(v4, ifindex);
    assert(pool == v4.filter(local)) by {
        if here {
            let idx = ifindex->0;
            let k = choose|k: int| 0 <= k < v4.len() && Some((#[trigger] v4[k]).ifindex) == ifindex;
            assert(v4.contains(v4[k]));
            lemma_filter_has(v4, on_iface4(idx), v4[k]);
            assert(local =~= on_iface4(idx));
        } else {
            lemma_filter_all(v4, local);
            if let Some(idx) = ifindex {
                assert forall|k: int| 0 <= k < v4.len() implies !on_iface4(idx)(
                    #[trigger] v4[k],
                ) by {
                    assert(Some(v4[k].ifindex) != ifindex);
                }
                crate::order::lemma_filter_none(v4, on_iface4(idx));
            }
        }
    }
    let near_here = pool.filter(near_to(from));
    let close = exists|k: int|
        0 <= k < v4.len() && (here ==> Some((#[trigger] v4[k]).ifindex) == ifindex)
            && v4[k].addr.bits & v4[k].mask.bits == from.bits & v4[k].mask.bits;
    if close {
        let k = choose|k: int|
            0 <= k < v4.len() && (here ==> Some((#[trigger] v4[k]).ifindex) == ifindex)
                && v4[k].addr.bits & v4[k].mask.bits == from.bits & v4[k].mask.bits;
        assert(v4.contains(v4[k]));
        lemma_filter_has(v4, local, v4[k]);
        lemma_filter_has(pool, near_to(from), v4[k]);
        assert(near_here.len() > 0);
        lemma_filter_twice(v4, local, near_to(from), picks);
    } else {
        assert forall|k: int| 0 <= k < pool.len() implies !near_to(from)(#[trigger] pool[k]) by {
            assert(pool.contains(pool[k]));
            lemma_filter_has(v4, local, pool[k]);
            let j = choose|j: int| 0 <= j < v4.len() && v4[j] == pool[k];
            assert(here ==> Some(v4[j].ifindex) == ifindex);
        }
        crate::order::lemma_filter_none(pool, near_to(from));
        assert(local =~= picks);
    }
}

/// The chosen IPv6 addresses are those that answer, in their order.
proof fn lemma_chosen6(v6: Seq<IfaceAddr6>, ifindex: Option<u32>)
    ensures
        local6(v6, ifindex) == v6.filter(|a: IfaceAddr6| answers6(v6, ifindex, a)),
{
    let picks = |a: IfaceAddr6| answers6(v6, ifindex, a);
    if exists|k: int| 0 <= k < v6.len() && Some((#[trigger] v6[k]).ifindex) == ifindex {
        let idx = ifindex->0;
        let k = choose|k: int| 0 <= k < v6.len() && Some((#[trigger] v6[k]).ifindex) == ifindex;
        assert(v6.contains(v6[k]));
        lemma_filter_has(v6, on_iface6(idx), v6[k]);
        assert(picks =~= on_iface6(idx));
    } else {
        lemma_filter_all(v6, picks);
        if let Some(idx) = ifindex {
            assert forall|k: int| 0 <= k < v6.len() implies !on_iface6(idx)(#[trigger] v6[k]) by {
                assert(Some(v6[k].ifindex) != ifindex);
            }
            crate::order::lemma_filter_none(v6, on_iface6(idx));
        }
    }
}

/// The IPv4 addresses that answer a query of the given type.
pub open spec fn chosen4(
    qtype: u16,
    v4: Seq<IfaceAddr4>,
    querier: IpAddr,
    ifindex: Option<u32>,
) -> Seq<IfaceAddr4> {
    if qtype == 1 || qtype == 255 {
        v4.filter(|a: IfaceAddr4| answers4(v4, querier, ifindex, a))
    } else {
        Seq::empty()
    }
}

/// The IPv6 addresses that answer a query of the given type.
pub open spec fn chosen6(qtype: u16, v6: Seq<IfaceAddr6>, ifindex: Option<u32>) -> Seq<IfaceAddr6> {
    if qtype == 28 || qtype == 255 {
        v6.filter(|a: IfaceAddr6| answers6(v6, ifindex, a))
    } else {
        Seq::empty()
    }
}

/// Whether a record is the one at `i` of those for IPv4 and IPv6 addresses.
pub open spec fn is_record_of(
    record: (u16, Seq<u8>),
    a: Seq<IfaceAddr4>,
    b: Seq<IfaceAddr6>,
    i: int,
) -> bool {
    if i < a.len() {
        record.0 == 1 && record.1.len() == 4 && big_endian(record.1) == a[i].addr.bits
    } else {
        record.0 == 28 && record.1.len() == 16 && big_endian(record.1) == b[i
            - a.len()].addr.bits
    }
}

/// The records for a query are those of the chosen addresses.
proof fn lemma_records_chosen(
    qtype: u16,
    v4: Seq<IfaceAddr4>,
    v6: Seq<IfaceAddr6>,
    querier: IpAddr,
    ifindex: Option<u32>,
)
    ensures
        ({
            let records = records_for(qtype, v4, v6, querier, ifindex);
            let a = chosen4(qtype, v4, querier, ifindex);
            let b = chosen6(qtype, v6, ifindex);
            &&& records.len() == a.len() + b.len()
            &&& forall|i: int|
                0 <= i < records.len() ==> is_record_of(#[trigger] records[i], a, b, i)
        }),
{
    lemma_chosen4(v4, querier, ifindex);
    lemma_chosen6(v6, ifindex);
    let records = records_for(qtype, v4, v6, querier, ifindex);
    let a = chosen4(qtype, v4, querier, ifindex);
    let b = chosen6(qtype, v6, ifindex);
    assert forall|i: int| 0 <= i < records.len() implies is_record_of(
        #[trigger] records[i],
        a,
        b,
        i,
    ) by {
        if i < a.len() {
            assert(records[i] == (1u16, be32(a[i].addr.bits)));
            bytes_stand_for_their_number(0, a[i].addr.bits, 0);
        } else {
            assert(records[i] == (28u16, be128(b[i - a.len()].addr.bits)));
            bytes_stand_for_their_number(0, 0, b[i - a.len()].addr.bits);
        }
    }
}

/// An answer tells its records, in front of which stands the question.
proof fn lemma_answer_frame(
    query: QueryView,
    hosts: Seq<Seq<char>>,
    records: Seq<(u16, Seq<u8>)>,
)
    requires
        response_to(query, hosts, records) is Some,
        forall|i: int| 0 <= i < records.len() ==> (#[trigger] records[i]).1.len() <= 0xffff,
    ensures
        ({
            let out = response_to(query, hosts, records)->0;
            let name = wire_name(query.qname);
            let question = 12 + name.len() as int;
            let got = answers_from(out, question + 4, name.len(), records.len());
            &&& out.subrange(12, question) == name
            &&& big_endian(out.subrange(question, question + 2)) == query.qtype
            &&& big_endian(out.subrange(question + 2, question + 4)) == query.qclass % 0x8000
            &&& big_endian(out.subrange(6, 8)) == records.len() % 0x1_0000
            &&& got.0.len() == records.len()
            &&& got.1 == out.len()
            &&& forall|i: int|
                0 <= i < records.len() ==> (#[trigger] got.0[i]) == (WireAnswer {
                    name,
                    type_: records[i].0 as nat,
                    class: 1,
                    ttl: 10,
                    data: records[i].1,
                })
        }),
{
    let out = response_to(query, hosts, records)->0;
    let name = wire_name(query.qname);
    let before = wire_header(query.id, records.len()) + wire_question(query);
    let question = 12 + name.len() as int;
    let count = (records.len() % 0x1_0000) as u16;
    let class = (query.qclass % 0x8000) as u16;
    lemma_records_read_back(before, name, records);
    bytes_stand_for_their_number(query.qtype, 0, 0);
    bytes_stand_for_their_number(class, 0, 0);
    bytes_stand_for_their_number(count, 0, 0);
    assert(out =~= before + wire_records(name, records));
    assert(out.subrange(12, question) =~= name);
    assert(out.subrange(question, question + 2) =~= be16(query.qtype));
    assert(out.subrange(question + 2, question + 4) =~= be16(class));
    assert(out.subrange(6, 8) =~= be16(count));
}

/// Records of addresses are read back from an answer.
proof fn lemma_answer_lists(
    query: QueryView,
    hosts: Seq<Seq<char>>,
    records: Seq<(u16, Seq<u8>)>,
    a: Seq<IfaceAddr4>,
    b: Seq<IfaceAddr6>,
)
    requires
        response_to(query, hosts, records) is Some,
        records.len() == a.len() + b.len(),
        forall|i: int| 0 <= i < records.len() ==> is_record_of(#[trigger] records[i], a, b, i),
    ensures
        ({
            let out = response_to(query, hosts, records)->0;
            let name = wire_name(query.qname);
            let question = 12 + name.len() as int;
            let got = answers_from(out, question + 4, name.len(), a.len() + b.len());
            &&& records.len() > 0
            &&& out.subrange(12, question) == name
            &&& big_endian(out.subrange(question, question + 2)) == query.qtype
            &&& big_endian(out.subrange(question + 2, question + 4)) == query.qclass % 0x8000
            &&& big_endian(out.subrange(6, 8)) == (a.len() + b.len()) % 0x1_0000
            &&& got.0.len() == a.len() + b.len()
            &&& got.1 == out.len()
            &&& forall|i: int|
                0 <= i < got.0.len() ==> {
                    let r = #[trigger] got.0[i];
                    &&& r.name == name
                    &&& r.class == 1
                    &&& r.ttl == 10
                    &&& i < a.len() ==> r.type_ == 1 && r.data.len() == 4 && big_endian(r.data)
                        == a[i].addr.bits
                    &&& i >= a.len() ==> r.type_ == 28 && r.data.len() == 16 && big_endian(r.data)
                        == b[i - a.len()].addr.bits
                }
        }),
{
    assert forall|i: int| 0 <= i < records.len() implies (#[trigger] records[i]).1.len()
        <= 0xffff by {
        assert(is_record_of(records[i], a, b, i));
    }
    lemma_answer_frame(query, hosts, records);
    let name = wire_name(query.qname);
    let got = answers_from(
        response_to(query, hosts, records)->0,
        12 + name.len() as int + 4,
        name.len(),
        records.len(),
    );
    assert forall|i: int| 0 <= i < got.0.len() implies ({
        let r = #[trigger] got.0[i];
        &&& r.name == name
        &&& r.class == 1
        &&& r.ttl == 10
        &&& i < a.len() ==> r.type_ == 1 && r.data.len() == 4 && big_endian(r.data)
            == a[i].addr.bits
        &&& i >= a.len() ==> r.type_ == 28 && r.data.len() == 16 && big_endian(r.data)
            == b[i - a.len()].addr.bits
    }) by {
        assert(is_record_of(records[i], a, b, i));
    }
}

/// An answer, read back off the wire, holds exactly the chosen addresses. A
/// query of type A (1) gets one record of type 1 with four bytes of data for
/// each chosen IPv4 address, a query of type AAAA (28) one record of type 28
/// with sixteen bytes for each chosen IPv6 address, and a query of type ANY
/// (255) first the former and then the latter. The data are the octets of the
/// addresses, the most significant first. Every record has the name that was
/// asked for, the class IN (1) and ten seconds to live; the header tells their
/// number, and nothing stands behind them.
pub proof fn answer_reads_back(
    query: QueryView,
    hosts: Seq<Seq<char>>,
    v4: Seq<IfaceAddr4>,
    v6: Seq<IfaceAddr6>,
    querier: IpAddr,
    ifindex: Option<u32>,
)
    requires
        response_to(query, hosts, records_for(query.qtype, v4, v6, querier, ifindex)) is Some,
    ensures
        ({
            let out = response_to(
                query,
                hosts,
                records_for(query.qtype, v4, v6, querier, ifindex),
            )->0;
            let name = wire_name(query.qname);
            let a = chosen4(query.qtype, v4, querier, ifindex);
            let b = chosen6(query.qtype, v6, ifindex);
            let question = 12 + name.len() as int;
            let got = answers_from(out, question + 4, name.len(), a.len() + b.len());
            &&& a.len() + b.len() > 0
            &&& out.subrange(12, question) == name
            &&& big_endian(out.subrange(question, question + 2)) == query.qtype
            &&& big_endian(out.subrange(question + 2, question + 4)) == query.qclass % 0x8000
            &&& big_endian(out.subrange(6, 8)) == (a.len() + b.len()) % 0x1_0000
            &&& got.0.len() == a.len() + b.len()
            &&& got.1 == out.len()
            &&& forall|i: int|
                0 <= i < got.0.len() ==> {
                    let r = #[trigger] got.0[i];
                    &&& r.name == name
                    &&& r.class == 1
                    &&& r.ttl == 10
                    &&& i < a.len() ==> r.type_ == 1 && r.data.len() == 4 && big_endian(r.data)
                        == a[i].addr.bits
                    &&& i >= a.len() ==> r.type_ == 28 && r.data.len() == 16 && big_endian(r.data)
                        == b[i - a.len()].addr.bits
                }
        }),
{
    let records = records_for(query.qtype, v4, v6, querier, ifindex);
    lemma_records_chosen(query.qtype, v4, v6, querier, ifindex);
    lemma_answer_lists(
        query,
        hosts,
        records,
        chosen4(query.qtype, v4, querier, ifindex),
        chosen6(query.qtype, v6, ifindex),
    );
}

/// A query is answered exactly if it asks for a known host and there is an
/// address of the asked kind.
pub proof fn answered_is_exact(
    query: QueryView,
    hosts: Seq<Seq<char>>,
    v4: Seq<IfaceAddr4>,
    v6: Seq<IfaceAddr6>,
    querier: IpAddr,
    ifindex: Option<u32>,
)
    ensures
        response_to(query, hosts, records_for(query.qtype, v4, v6, querier, ifindex)) is Some <==> {
            &&& exists|i: int|
                0 <= i < hosts.len() && lookup_name(#[trigger] hosts[i]) == lookup_name(query.qname)
            &&& (query.qtype == 1 || query.qtype == 255) && v4.len() > 0 || (query.qtype == 28
                || query.qtype == 255) && v6.len() > 0
        },
{
}

/// Hosts are looked up by their names: two names without white space around
/// them and with one trailing dot are the same host exactly if they are the
/// same in lower case.
pub proof fn lookup_is_by_name(a: Seq<char>, b: Seq<char>)
    requires
        a.len() > 0 && !crate::text::white(a[0]) && a.last() == '.',
        b.len() > 0 && !crate::text::white(b[0]) && b.last() == '.',
    ensures
        lookup_name(a) == lookup_name(b) <==> lower(a) == lower(b),
        lookup_name(a) == lower(a),
{
    lemma_trimmed_same(a);
    lemma_trimmed_same(b);
    assert(lower(a).last() == '.');
    assert(lower(b).last() == '.');
}

/// A packet is taken for a query only if it is long enough, is no response, has
/// a question, and its first question is of class IN and of type A, AAAA or
/// ANY. Its id stands in the first two bytes.
pub proof fn only_address_queries_count(packet: Seq<u8>)
    ensures
        query_in(packet) matches Some(q) ==> {
            let end = name_end(packet, 12, MAX_STEPS as nat);
            &&& 16 <= end + 4 <= packet.len()
            &&& packet[2] < 128
            &&& packet[4] != 0 || packet[5] != 0
            &&& q.id == packet[0] * 256 + packet[1]
            &&& name_at(packet, 12) == Some(q.qname)
            &&& q.qtype == packet[end] * 256 + packet[end + 1]
            &&& q.qclass == packet[end + 2] * 256 + packet[end + 3]
            &&& q.qtype == 1 || q.qtype == 28 || q.qtype == 255
            &&& q.qclass == 1 || q.qclass == 0x8001
        },
{
    if query_in(packet) is Some {
        lemma_name_end_ahead(packet, 12, MAX_STEPS as nat);
    }
}

/// A name ends behind its start.
proof fn lemma_name_end_ahead(packet: Seq<u8>, at: int, steps: nat)
    ensures
        name_end(packet, at, steps) > at,
    decreases steps,
{
    let len = packet[at] as int;
    if steps > 0 && 0 < len < 0xc0 {
        lemma_name_end_ahead(packet, at + 1 + len, (steps - 1) as nat);
    }
}

} // verus!
