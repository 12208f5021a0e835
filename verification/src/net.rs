//! Internet addresses as plain values.

use vstd::prelude::*;

use crate::bytes::{be128, be32, push_be128, push_be32};
use crate::numeral::{decimal, hex, to_decimal, to_hex};
use crate::order::Ranked;
use crate::text::{join, joined, texts};

verus! {

/// An IPv4 address, as the number that its four octets stand for.
#[derive(Debug, Clone, Copy, PartialEq, Eq, Structural)]
pub struct Ipv4Addr {
    pub bits: u32,
}

/// An IPv6 address, as the number that its sixteen octets stand for.
#[derive(Debug, Clone, Copy, PartialEq, Eq, Structural)]
pub struct Ipv6Addr {
    pub bits: u128,
}

/// An address of either kind.
#[derive(Debug, Clone, Copy, PartialEq, Eq, Structural)]
pub enum IpAddr {
    V4(Ipv4Addr),
    V6(Ipv6Addr),
}

impl View for Ipv4Addr {
    type V = Ipv4Addr;

    open spec fn view(&self) -> Ipv4Addr {
        *self
    }
}

impl View for Ipv6Addr {
    type V = Ipv6Addr;

    open spec fn view(&self) -> Ipv6Addr {
        *self
    }
}

/// The octets of an IPv4 address as text: four decimal numbers with dots between.
pub open spec fn dotted(ip: Ipv4Addr) -> Seq<char> {
    let o = be32(ip.bits);
    decimal(o[0] as nat) + "."@ + decimal(o[1] as nat) + "."@ + decimal(o[2] as nat) + "."@
        + decimal(o[3] as nat)
}

/// The eight groups of an IPv6 address, the most significant first.
pub open spec fn groups(ip: Ipv6Addr) -> Seq<u16> {
    seq![
        (ip.bits / 0x1_0000_0000_0000_0000_0000_0000_0000) as u16,
        (ip.bits / 0x1_0000_0000_0000_0000_0000_0000 % 0x1_0000) as u16,
        (ip.bits / 0x1_0000_0000_0000_0000_0000 % 0x1_0000) as u16,
        (ip.bits / 0x1_0000_0000_0000_0000 % 0x1_0000) as u16,
        (ip.bits / 0x1_0000_0000_0000 % 0x1_0000) as u16,
        (ip.bits / 0x1_0000_0000 % 0x1_0000) as u16,
        (ip.bits / 0x1_0000 % 0x1_0000) as u16,
        (ip.bits % 0x1_0000) as u16,
    ]
}

/// The number of zeros right before `end`.
pub open spec fn zeros_before(s: Seq<u16>, end: nat) -> nat
    decreases end,
{
    if end == 0 || s[end - 1] != 0 {
        0
    } else {
        1 + zeros_before(s, (end - 1) as nat)
    }
}

/// Where the longest run of zeros among the first `end` groups starts, and its
/// length; the first of several.
pub open spec fn longest_zeros(s: Seq<u16>, end: nat) -> (nat, nat)
    decreases end,
{
    if end == 0 {
        (0, 0)
    } else {
        let best = longest_zeros(s, (end - 1) as nat);
        let run = zeros_before(s, end);
        if run > best.1 {
            ((end - run) as nat, run)
        } else {
            best
        }
    }
}

/// Groups in hexadecimal with colons between.
pub open spec fn colon_hex(s: Seq<u16>) -> Seq<char> {
    joined(s.map_values(|g: u16| hex(g as nat)), ":"@)
}

/// An IPv6 address as text (RFC 5952): the longest run of two or more zero
/// groups is left out, and an IPv4-mapped address ends in dotted decimal.
pub open spec fn ipv6_text(ip: Ipv6Addr) -> Seq<char> {
    let s = groups(ip);
    let (start, len) = longest_zeros(s, 8);
    if ip.bits / 0x1_0000_0000 == 0xffff {
        "::ffff:"@ + dotted(Ipv4Addr { bits: (ip.bits % 0x1_0000_0000) as u32 })
    } else if len > 1 {
        colon_hex(s.take(start as int)) + "::"@ + colon_hex(s.skip((start + len) as int))
    } else {
        colon_hex(s)
    }
}

/// The text of an IPv6 address is not empty.
pub proof fn lemma_ipv6_text(ip: Ipv6Addr)
    ensures
        ipv6_text(ip).len() > 0,
{
    reveal_strlit("::");
    reveal_strlit("::ffff:");
    reveal_strlit(":");
    let s = groups(ip);
    assert(s.len() == 8);
}

/// A run of zeros fits before its end, and so does the longest.
proof fn lemma_zeros(s: Seq<u16>, end: nat)
    ensures
        zeros_before(s, end) <= end,
        longest_zeros(s, end).0 + longest_zeros(s, end).1 <= end,
    decreases end,
{
    if end > 0 {
        lemma_zeros(s, (end - 1) as nat);
    }
}

/// Groups in hexadecimal with colons between.
fn print_groups(s: &[u16]) -> (r: String)
    ensures
        r@ == colon_hex(s@),
{
    let ghost show = |g: u16| hex(g as nat);
    let mut parts: Vec<String> = Vec::new();
    let mut i: usize = 0;
    while i < s.len()
        invariant
            i == parts@.len() <= s@.len(),
            show == (|g: u16| hex(g as nat)),
            forall|k: int| 0 <= k < i ==> (#[trigger] texts(parts@)[k]) == show(s@[k]),
        decreases s@.len() - i,
    {
        let ghost before = parts@;
        parts.push(to_hex(s[i] as u64));
        proof {
            assert(texts(parts@) =~= texts(before).push(show(s@[i as int])));
        }
        i += 1;
    }
    proof {
        assert(texts(parts@) =~= s@.map_values(show));
    }
    join(&parts, ":")
}

impl Ipv4Addr {
    /// The address `a.b.c.d`.
    pub fn new(a: u8, b: u8, c: u8, d: u8) -> (r: Self)
        ensures
            be32(r.bits) == seq![a, b, c, d],
    {
        let bits: u32 = a as u32 * 0x100_0000 + b as u32 * 0x1_0000 + c as u32 * 256 + d as u32;
        let r = Ipv4Addr { bits };
        proof {
            assert(bits / 0x100_0000 == a && bits / 0x1_0000 % 256 == b && bits / 256 % 256 == c
                && bits % 256 == d) by (bit_vector)
                requires
                    bits == a * 0x100_0000 + b * 0x1_0000 + c * 256 + d,
            ;
            assert(be32(bits) =~= seq![a, b, c, d]);
        }
        r
    }

    /// The four octets, the most significant first.
    pub fn octets(&self) -> (r: Vec<u8>)
        ensures
            r@ == be32(self.bits),
    {
        let mut out: Vec<u8> = Vec::new();
        push_be32(&mut out, self.bits);
        proof {
            assert(Seq::<u8>::empty() + be32(self.bits) =~= be32(self.bits));
        }
        out
    }

    /// Whether the address is in `127.0.0.0/8`.
    pub fn is_loopback(&self) -> (r: bool)
        ensures
            r == (be32(self.bits)[0] == 127),
    {
        self.bits / 0x100_0000 == 127
    }

    /// Whether the address is `0.0.0.0`.
    pub fn is_unspecified(&self) -> (r: bool)
        ensures
            r == (self.bits == 0),
    {
        self.bits == 0
    }

    /// The address in dotted decimal notation.
    pub fn to_text(&self) -> (r: String)
        ensures
            r@ == dotted(*self),
    {
        let o = self.octets();
        let mut out = to_decimal(o[0] as u64);
        out.append(".");
        out.append(to_decimal(o[1] as u64).as_str());
        out.append(".");
        out.append(to_decimal(o[2] as u64).as_str());
        out.append(".");
        out.append(to_decimal(o[3] as u64).as_str());
        out
    }
}

impl Ipv6Addr {
    /// The address with the given eight groups of sixteen bits.
    pub fn new(a: u16, b: u16, c: u16, d: u16, e: u16, f: u16, g: u16, h: u16) -> (r: Self)
        ensures
            r.bits == ((((((a * 0x1_0000 + b) * 0x1_0000 + c) * 0x1_0000 + d) * 0x1_0000 + e)
                * 0x1_0000 + f) * 0x1_0000 + g) * 0x1_0000 + h,
    {
        let high: u128 = ((a as u128 * 0x1_0000 + b as u128) * 0x1_0000 + c as u128) * 0x1_0000
            + d as u128;
        let low: u128 = ((e as u128 * 0x1_0000 + f as u128) * 0x1_0000 + g as u128) * 0x1_0000
            + h as u128;
        Ipv6Addr { bits: high * 0x1_0000_0000_0000_0000 + low }
    }

    /// The sixteen octets, the most significant first.
    pub fn octets(&self) -> (r: Vec<u8>)
        ensures
            r@ == be128(self.bits),
    {
        let mut out: Vec<u8> = Vec::new();
        push_be128(&mut out, self.bits);
        proof {
            assert(Seq::<u8>::empty() + be128(self.bits) =~= be128(self.bits));
        }
        out
    }

    /// The eight groups, the most significant first.
    fn segments(&self) -> (r: Vec<u16>)
        ensures
            r@ == groups(*self),
    {
        let n: u128 = self.bits;
        let mut out: Vec<u16> = Vec::new();
        out.push((n / 0x1_0000_0000_0000_0000_0000_0000_0000) as u16);
        out.push((n / 0x1_0000_0000_0000_0000_0000_0000 % 0x1_0000) as u16);
        out.push((n / 0x1_0000_0000_0000_0000_0000 % 0x1_0000) as u16);
        out.push((n / 0x1_0000_0000_0000_0000 % 0x1_0000) as u16);
        out.push((n / 0x1_0000_0000_0000 % 0x1_0000) as u16);
        out.push((n / 0x1_0000_0000 % 0x1_0000) as u16);
        out.push((n / 0x1_0000 % 0x1_0000) as u16);
        out.push((n % 0x1_0000) as u16);
        proof {
            assert(out@ =~= groups(*self));
        }
        out
    }

    /// The address as text.
    pub fn to_text(&self) -> (r: String)
        ensures
            r@ == ipv6_text(*self),
    {
        if self.bits / 0x1_0000_0000 == 0xffff {
            let mut out = "::ffff:".to_owned();
            let low = Ipv4Addr { bits: (self.bits % 0x1_0000_0000) as u32 };
            out.append(low.to_text().as_str());
            return out;
        }
        let s = self.segments();
        let mut start: usize = 0;
        let mut len: usize = 0;
        let mut run: usize = 0;
        let mut i: usize = 0;
        while i < 8
            invariant
                s@.len() == 8,
                i <= 8,
                run == zeros_before(s@, i as nat),
                run <= i,
                (start as nat, len as nat) == longest_zeros(s@, i as nat),
            decreases 8 - i,
        {
            run = if s[i] == 0 {
                run + 1
            } else {
                0
            };
            i += 1;
            if run > len {
                start = i - run;
                len = run;
            }
        }
        proof {
            lemma_zeros(s@, 8);
        }
        if len > 1 {
            proof {
                assert(s@.subrange(0, start as int) =~= s@.take(start as int));
                assert(s@.subrange(start + len, 8) =~= s@.skip(start + len));
            }
            let mut out = print_groups(&s[0..start]);
            out.append("::");
            out.append(print_groups(&s[start + len..8]).as_str());
            out
        } else {
            print_groups(&s)
        }
    }

    /// Whether the address is `::1`.
    pub fn is_loopback(&self) -> (r: bool)
        ensures
            r == (self.bits == 1),
    {
        self.bits == 1
    }

    /// Whether the address is `::`.
    pub fn is_unspecified(&self) -> (r: bool)
        ensures
            r == (self.bits == 0),
    {
        self.bits == 0
    }

    /// Whether the address is in `fe80::/10`.
    pub fn is_link_local(&self) -> (r: bool)
        ensures
            r == (self.bits / 0x40_0000_0000_0000_0000_0000_0000_0000 == 0x3fa),
    {
        self.bits / 0x40_0000_0000_0000_0000_0000_0000_0000 == 0x3fa
    }
}

impl Ranked for Ipv4Addr {
    open spec fn le(a: Ipv4Addr, b: Ipv4Addr) -> bool {
        a.bits <= b.bits
    }

    proof fn le_total(a: Ipv4Addr, b: Ipv4Addr) {
    }

    proof fn le_transitive(a: Ipv4Addr, b: Ipv4Addr, c: Ipv4Addr) {
    }

    fn at_most(&self, other: &Self) -> (r: bool) {
        self.bits <= other.bits
    }
}

/// An IPv4 address is shown as its four octets in decimal, the most significant
/// first, with dots between them.
pub proof fn dotted_shows_the_octets(ip: Ipv4Addr, a: u8, b: u8, c: u8, d: u8)
    requires
        ip.bits == ((a * 256 + b) * 256 + c) * 256 + d,
    ensures
        dotted(ip) == decimal(a as nat) + "."@ + decimal(b as nat) + "."@ + decimal(c as nat)
            + "."@ + decimal(d as nat),
{
    let o = be32(ip.bits);
    assert(o[0] == a && o[1] == b && o[2] == c && o[3] == d);
}

/// The groups of an IPv6 address, put together, are the address.
pub proof fn groups_make_the_address(ip: Ipv6Addr)
    ensures
        ({
            let g = groups(ip);
            &&& g.len() == 8
            &&& ip.bits == ((((((g[0] * 0x1_0000 + g[1]) * 0x1_0000 + g[2]) * 0x1_0000 + g[3])
                * 0x1_0000 + g[4]) * 0x1_0000 + g[5]) * 0x1_0000 + g[6]) * 0x1_0000 + g[7]
        }),
{
    let n = ip.bits;
    let a = n / 0x1_0000;
    let b = a / 0x1_0000;
    let c = b / 0x1_0000;
    let d = c / 0x1_0000;
    let e = d / 0x1_0000;
    let f = e / 0x1_0000;
    assert(n / 0x1_0000_0000 == b);
    assert(n / 0x1_0000_0000_0000 == c);
    assert(n / 0x1_0000_0000_0000_0000 == d);
    assert(n / 0x1_0000_0000_0000_0000_0000 == e);
    assert(n / 0x1_0000_0000_0000_0000_0000_0000 == f);
    assert(n / 0x1_0000_0000_0000_0000_0000_0000_0000 == f / 0x1_0000);
}

/// What is left out of the text of an IPv6 address is the longest run of zero
/// groups, the first of several, and it is left out only if it has two or more.
pub proof fn longest_zero_run_is_left_out(ip: Ipv6Addr, i: nat, j: nat)
    requires
        i <= j <= 8,
        forall|k: int| i <= k < j ==> groups(ip)[k] == 0,
        ip.bits / 0x1_0000_0000 != 0xffff,
    ensures
        ({
            let g = groups(ip);
            let (start, len) = longest_zeros(g, 8);
            &&& start + len <= 8
            &&& forall|k: int| start <= k < start + len ==> g[k] == 0
            &&& j - i <= len
            &&& j - i == len && len > 0 ==> start <= i
            &&& len >= 2 ==> ipv6_text(ip) == colon_hex(g.take(start as int)) + "::"@ + colon_hex(
                g.skip((start + len) as int),
            )
            &&& len < 2 ==> ipv6_text(ip) == colon_hex(g)
        }),
{
    lemma_zeros(groups(ip), 8);
    lemma_longest(groups(ip), 8, i, j);
}

/// The longest run of zeros is one, and no other is longer or as long and
/// earlier.
proof fn lemma_longest(s: Seq<u16>, end: nat, i: nat, j: nat)
    requires
        end <= s.len(),
        i <= j <= end,
        forall|k: int| i <= k < j ==> s[k] == 0,
    ensures
        ({
            let (start, len) = longest_zeros(s, end);
            &&& start + len <= end
            &&& forall|k: int| start <= k < start + len ==> s[k] == 0
            &&& j - i <= len
            &&& j - i == len && len > 0 ==> start <= i
        }),
    decreases end,
{
    if end > 0 {
        let before = (end - 1) as nat;
        lemma_run(s, end);
        if j < end {
            lemma_longest(s, before, i, j);
        } else {
            let from = if i < end {
                i
            } else {
                before
            };
            lemma_longest(s, before, from, before);
            lemma_run_has(s, end, i);
        }
    }
}

/// A run of zeros before an end consists of zeros.
proof fn lemma_run(s: Seq<u16>, end: nat)
    requires
        end <= s.len(),
    ensures
        zeros_before(s, end) <= end,
        forall|k: int| end - zeros_before(s, end) <= k < end ==> s[k] == 0,
    decreases end,
{
    if end > 0 && s[end - 1] == 0 {
        lemma_run(s, (end - 1) as nat);
    }
}

/// Zeros up to an end are within the run before it.
proof fn lemma_run_has(s: Seq<u16>, end: nat, i: nat)
    requires
        i <= end <= s.len(),
        forall|k: int| i <= k < end ==> s[k] == 0,
    ensures
        zeros_before(s, end) >= end - i,
    decreases end,
{
    if i < end {
        assert(s[end - 1] == 0);
        lemma_run_has(s, (end - 1) as nat, i);
    }
}

} // verus!
