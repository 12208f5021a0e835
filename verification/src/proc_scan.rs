//! Listen sockets of a process, from what `/proc` shows.
//!
//! Socket inodes come from `/proc/<pid>/fd`; they are matched against
//! `/proc/net/tcp{,6}` (LISTEN state `0A`) and `/proc/net/udp{,6}`.

use std::collections::HashSet;

use vstd::prelude::*;

use crate::numeral::{
    decimal, decimal_reads_back, hex, hex_reads_back, numbers_are_digits_only, parse_unsigned,
    unsigned_to,
};
use crate::text::{
    begins, drop_chars, ends, ends_with, lines, lower, lowercase, same, separators_part_the_pieces,
    skip_chars, split, split_char, split_lines, split_words, starts_with, texts, words,
};

verus! {

broadcast use vstd::std_specs::hash::group_hash_axioms;

/// Ports found listening for a process.
#[derive(Debug)]
pub struct ListenPorts {
    pub tcp: HashSet<u16>,
    pub udp: HashSet<u16>,
}

impl ListenPorts {
    pub fn has_tcp(&self, port: u16) -> (r: bool)
        ensures
            r == self.tcp@.contains(port),
    {
        self.tcp.contains(&port)
    }

    pub fn has_udp(&self, port: u16) -> (r: bool)
        ensures
            r == self.udp@.contains(port),
    {
        self.udp.contains(&port)
    }
}

/// TCP LISTEN state in `/proc/net/tcp*` is hex `0A`.
pub const TCP_LISTEN: &'static str = "0A";

/// The inode in the link target `socket:[12345]`.
pub open spec fn socket_inode(link: Seq<char>) -> Option<nat> {
    if begins(link, "socket:["@) && ends(link.skip(8), "]"@) {
        unsigned_to(link.skip(8).drop_last(), 10, u64::MAX as nat)
    } else {
        None
    }
}

/// Parse `socket:[12345]` symlink target.
pub fn parse_socket_link(path: &str) -> (r: Option<u64>)
    ensures
        match r {
            Some(n) => socket_inode(path@) == Some(n as nat),
            None => socket_inode(path@) is None,
        },
{
    proof {
        reveal_strlit("socket:[");
        reveal_strlit("]");
    }
    if !starts_with(path, "socket:[") {
        return None;
    }
    let rest = skip_chars(path, 8);
    if !ends_with(rest.as_str(), "]") {
        return None;
    }
    let num = drop_chars(rest.as_str(), 1);
    proof {
        assert(rest@.take(rest@.len() - 1) =~= rest@.drop_last());
    }
    parse_unsigned(num.as_str(), 10, u64::MAX)
}

/// What stands behind the last colon of an address, if it has one.
pub open spec fn port_text(address: Seq<char>) -> Option<Seq<char>> {
    let parts = split(address, ':');
    if parts.len() > 1 {
        Some(parts.last())
    } else {
        None
    }
}

/// The port of a `/proc/net/{tcp,udp}{,6}` data line, if the line is complete,
/// has the required state and one of the inodes.
///
/// Columns: sl, local_address (`IP:PORT` in hex), rem_address, st, …; the inode
/// is the tenth.
pub open spec fn net_port(line: Seq<char>, inodes: Set<u64>, state: Option<Seq<char>>) -> Option<
    nat,
> {
    let cols = words(line);
    match unsigned_to(cols[9], 10, u64::MAX as nat) {
        Some(inode) if cols.len() >= 10 && inodes.contains(inode as u64) && (state matches Some(st)
            ==> lower(cols[3]) == lower(st)) => match port_text(cols[1]) {
            Some(p) => unsigned_to(p, 16, 0xffff),
            None => None,
        },
        _ => None,
    }
}

/// Parse a `/proc/net/{tcp,udp}{,6}` data line.
pub fn parse_net_line(line: &str, inodes: &HashSet<u64>, require_state: Option<&str>) -> (r: Option<
    u16,
>)
    ensures
        ({
            let state = match require_state {
                Some(st) => Some(st@),
                None => None,
            };
            match r {
                Some(p) => net_port(line@, inodes@, state) == Some(p as nat),
                None => net_port(line@, inodes@, state) is None,
            }
        }),
{
    let cols = split_words(line);
    let ghost all = texts(cols@);
    assert(all.len() == cols@.len());
    if cols.len() < 10 {
        return None;
    }
    assert(all[1] == cols@[1]@ && all[3] == cols@[3]@ && all[9] == cols@[9]@);
    if let Some(st) = require_state {
        if !same(lowercase(cols[3].as_str()).as_str(), lowercase(st).as_str()) {
            return None;
        }
    }
    match parse_unsigned(cols[9].as_str(), 10, u64::MAX) {
        None => None,
        Some(inode) => {
            if !inodes.contains(&inode) {
                return None;
            }
            let parts = split_char(cols[1].as_str(), ':');
            let n: usize = parts.len();
            let ghost pieces = texts(parts@);
            assert(pieces.len() == n);
            if n < 2 {
                return None;
            }
            assert(pieces.last() == parts@[n - 1]@);
            match parse_unsigned(parts[n - 1].as_str(), 16, 0xffff) {
                Some(p) => Some(p as u16),
                None => None,
            }
        },
    }
}

/// Whether a line behind the heading has the given port.
pub open spec fn lists_port(
    rows: Seq<Seq<char>>,
    inodes: Set<u64>,
    state: Option<Seq<char>>,
    port: u16,
) -> bool {
    exists|i: int|
        1 <= i < rows.len() && net_port(#[trigger] rows[i], inodes, state) == Some(port as nat)
}

/// Collects the ports that a table of sockets lists for the inodes. The first
/// line is a heading.
pub fn collect_ports(
    table: &str,
    inodes: &HashSet<u64>,
    require_state: Option<&str>,
    out: &mut HashSet<u16>,
)
    ensures
        forall|p: u16| #[trigger]
            final(out)@.contains(p) <==> old(out)@.contains(p) || lists_port(
                lines(table@),
                inodes@,
                match require_state {
                    Some(st) => Some(st@),
                    None => None,
                },
                p,
            ),
{
    let rows = split_lines(table);
    let ghost all = texts(rows@);
    let ghost start = out@;
    let ghost state = match require_state {
        Some(st) => Some(st@),
        None => None,
    };
    let mut i: usize = 1;
    while i < rows.len()
        invariant
            1 <= i,
            i <= rows@.len() || i == 1,
            all == texts(rows@),
            state == (match require_state {
                Some(st) => Some(st@),
                None => None,
            }),
            forall|p: u16| #[trigger]
                out@.contains(p) <==> start.contains(p) || exists|k: int|
                    1 <= k < i && k < all.len() && net_port(#[trigger] all[k], inodes@, state)
                        == Some(p as nat),
        decreases rows@.len() - i,
    {
        let ghost before = out@;
        match parse_net_line(rows[i].as_str(), inodes, require_state) {
            Some(port) => {
                out.insert(port);
                proof {
                    assert(net_port(all[i as int], inodes@, state) == Some(port as nat));
                }
            },
            None => {},
        }
        proof {
            let j = i as int;
            assert forall|p: u16| #[trigger]
                out@.contains(p) <==> start.contains(p) || exists|k: int|
                    1 <= k < j + 1 && k < all.len() && net_port(#[trigger] all[k], inodes@, state)
                        == Some(p as nat) by {
                if before.contains(p) && !start.contains(p) {
                    let k = choose|k: int|
                        1 <= k < j && k < all.len() && net_port(#[trigger] all[k], inodes@, state)
                            == Some(p as nat);
                    assert(net_port(all[k], inodes@, state) == Some(p as nat));
                }
            }
        }
        i += 1;
    }
}

/// The inodes that links to sockets name.
pub open spec fn names_inode(links: Seq<Seq<char>>, inode: u64) -> bool {
    exists|i: int|
        0 <= i < links.len() && socket_inode(#[trigger] links[i]) == Some(inode as nat)
}

/// The inodes of the sockets among the links of a process's descriptors.
pub fn socket_inodes(links: &[String]) -> (r: HashSet<u64>)
    ensures
        forall|n: u64| #[trigger] r@.contains(n) <==> names_inode(texts(links@), n),
{
    let ghost all = texts(links@);
    let mut out: HashSet<u64> = HashSet::new();
    let mut i: usize = 0;
    while i < links.len()
        invariant
            i <= links@.len(),
            all == texts(links@),
            forall|n: u64| #[trigger]
                out@.contains(n) <==> exists|k: int|
                    0 <= k < i && socket_inode(#[trigger] all[k]) == Some(n as nat),
        decreases links@.len() - i,
    {
        let ghost before = out@;
        match parse_socket_link(links[i].as_str()) {
            Some(inode) => {
                out.insert(inode);
                proof {
                    assert(socket_inode(all[i as int]) == Some(inode as nat));
                }
            },
            None => {},
        }
        proof {
            let j = i as int;
            assert forall|n: u64| #[trigger]
                out@.contains(n) <==> exists|k: int|
                    0 <= k < j + 1 && socket_inode(#[trigger] all[k]) == Some(n as nat) by {
                if before.contains(n) {
                    let k = choose|k: int|
                        0 <= k < j && socket_inode(#[trigger] all[k]) == Some(n as nat);
                    assert(socket_inode(all[k]) == Some(n as nat));
                }
            }
        }
        i += 1;
    }
    out
}

/// Collect the listen ports of a process by matching socket inodes, given the
/// link targets of its descriptors and the socket tables of the kernel. UDP has
/// no LISTEN state; presence of the inode is enough.
pub fn listen_ports_for_pid(links: &[String], tcp: &str, tcp6: &str, udp: &str, udp6: &str) -> (r:
    ListenPorts)
    ensures
        ({
            let inodes = Set::new(|n: u64| names_inode(texts(links@), n));
            let listen = Some(TCP_LISTEN@);
            &&& forall|p: u16| #[trigger]
                r.tcp@.contains(p) <==> lists_port(lines(tcp@), inodes, listen, p) || lists_port(
                    lines(tcp6@),
                    inodes,
                    listen,
                    p,
                )
            &&& forall|p: u16| #[trigger]
                r.udp@.contains(p) <==> lists_port(lines(udp@), inodes, None, p) || lists_port(
                    lines(udp6@),
                    inodes,
                    None,
                    p,
                )
        }),
{
    let inodes = socket_inodes(links);
    proof {
        assert(inodes@ =~= Set::new(|n: u64| names_inode(texts(links@), n)));
    }
    let mut out = ListenPorts { tcp: HashSet::new(), udp: HashSet::new() };
    collect_ports(tcp, &inodes, Some(TCP_LISTEN), &mut out.tcp);
    collect_ports(tcp6, &inodes, Some(TCP_LISTEN), &mut out.tcp);
    collect_ports(udp, &inodes, None, &mut out.udp);
    collect_ports(udp6, &inodes, None, &mut out.udp);
    out
}

/// The link to a socket names its inode.
pub proof fn socket_link_reads_back(inode: u64)
    ensures
        socket_inode("socket:["@ + decimal(inode as nat) + "]"@) == Some(inode as nat),
{
    reveal_strlit("socket:[");
    reveal_strlit("]");
    decimal_reads_back(inode as nat);
    let d = decimal(inode as nat);
    let link = "socket:["@ + d + "]"@;
    assert(link.take(8) =~= "socket:["@);
    let rest = link.skip(8);
    assert(rest =~= d.push(']'));
    assert(rest.skip(rest.len() - 1) =~= "]"@);
    assert(rest.drop_last() =~= d);
}

/// The port of an address is what stands behind its last colon.
pub proof fn port_stands_behind_the_last_colon(a: Seq<char>, b: Seq<char>)
    requires
        !b.contains(':'),
    ensures
        port_text(a.push(':') + b) == Some(b),
        port_text(b) is None,
{
    separators_part_the_pieces(b, ':', b);
    separators_part_the_pieces(a, ':', b);
    crate::text::lemma_pieces_nonempty(a, crate::text::only(':'));
}

/// A line of a socket table tells a port exactly if it has ten columns, the last
/// of them the decimal inode of one of the sockets, if its state is the required
/// one whatever the case, and if its local address ends in a colon and a port in
/// hexadecimal; it is that port.
pub proof fn lines_tell_the_ports_of_the_sockets(
    line: Seq<char>,
    inodes: Set<u64>,
    state: Option<Seq<char>>,
    host: Seq<char>,
    port: u16,
    inode: u64,
)
    requires
        words(line).len() >= 10,
        words(line)[1] == host.push(':') + hex(port as nat),
        words(line)[9] == decimal(inode as nat),
    ensures
        net_port(line, inodes, state) is Some <==> inodes.contains(inode) && (state is Some ==> lower(
            words(line)[3],
        ) == lower(state->0)),
        net_port(line, inodes, state) is Some ==> net_port(line, inodes, state) == Some(
            port as nat,
        ),
{
    let h = hex(port as nat);
    hex_reads_back(port as nat);
    decimal_reads_back(inode as nat);
    assert(unsigned_to(h, 16, 0xffff) == Some(port as nat));
    assert(!h.contains(':')) by {
        if h.contains(':') {
            let k = choose|k: int| 0 <= k < h.len() && h[k] == ':';
            numbers_are_digits_only(h, 16, 0xffff, k);
        }
    }
    port_stands_behind_the_last_colon(host, h);
}

/// A line with fewer than ten columns tells no port.
pub proof fn short_lines_tell_nothing(
    line: Seq<char>,
    inodes: Set<u64>,
    state: Option<Seq<char>>,
)
    requires
        words(line).len() < 10,
    ensures
        net_port(line, inodes, state) is None,
{
}

} // verus!
