//! Integers as bytes, and byte strings as text.

use vstd::prelude::*;
use vstd::utf8::{decode_utf8, valid_utf8};

verus! {

/// Two bytes, the more significant first.
pub open spec fn be16(n: u16) -> Seq<u8> {
    seq![(n / 256) as u8, (n % 256) as u8]
}

/// Four bytes, the most significant first.
pub open spec fn be32(n: u32) -> Seq<u8> {
    seq![
        (n / 0x100_0000) as u8,
        (n / 0x1_0000 % 256) as u8,
        (n / 256 % 256) as u8,
        (n % 256) as u8,
    ]
}

/// Sixteen bytes, the most significant first.
pub open spec fn be128(n: u128) -> Seq<u8> {
    be32((n / 0x1_0000_0000_0000_0000_0000_0000) as u32) + be32(
        (n / 0x1_0000_0000_0000_0000 % 0x1_0000_0000) as u32,
    ) + be32((n / 0x1_0000_0000 % 0x1_0000_0000) as u32) + be32((n % 0x1_0000_0000) as u32)
}

/// Two bytes, the less significant first.
pub open spec fn le16(n: u16) -> Seq<u8> {
    be16(n).reverse()
}

/// Four bytes, the least significant first.
pub open spec fn le32(n: u32) -> Seq<u8> {
    be32(n).reverse()
}

/// The number that two bytes stand for, the more significant first.
pub open spec fn be16_value(a: u8, b: u8) -> int {
    a * 256 + b
}

/// The number that the two bytes at `i` stand for, the less significant first.
pub open spec fn le16_at(s: Seq<u8>, i: int) -> int {
    s[i] + s[i + 1] * 256
}

/// The number that the four bytes at `i` stand for, the least significant first.
pub open spec fn le32_at(s: Seq<u8>, i: int) -> int {
    s[i] + s[i + 1] * 256 + s[i + 2] * 0x1_0000 + s[i + 3] * 0x100_0000
}

/// The order in which the bytes of a number stand.
#[derive(Debug, Clone, Copy, PartialEq, Eq, Structural)]
pub enum ByteOrder {
    /// The least significant first.
    Little,
    /// The most significant first.
    Big,
}

/// The number that the two bytes at `i` stand for, in the given order.
#[verifier::opaque]
pub open spec fn num16_at(s: Seq<u8>, i: int, order: ByteOrder) -> int {
    match order {
        ByteOrder::Little => le16_at(s, i),
        ByteOrder::Big => be16_value(s[i], s[i + 1]),
    }
}

/// The number that the four bytes at `i` stand for, in the given order.
#[verifier::opaque]
pub open spec fn num32_at(s: Seq<u8>, i: int, order: ByteOrder) -> int {
    match order {
        ByteOrder::Little => le32_at(s, i),
        ByteOrder::Big => s[i] * 0x100_0000 + s[i + 1] * 0x1_0000 + s[i + 2] * 256 + s[i + 3],
    }
}

/// Appends two bytes, the more significant first.
pub fn push_be16(out: &mut Vec<u8>, n: u16)
    ensures
        final(out)@ == old(out)@ + be16(n),
{
    let ghost before = out@;
    out.push((n / 256) as u8);
    out.push((n % 256) as u8);
    proof {
        assert(out@ =~= before + be16(n));
    }
}

/// Appends four bytes, the most significant first.
pub fn push_be32(out: &mut Vec<u8>, n: u32)
    ensures
        final(out)@ == old(out)@ + be32(n),
{
    let ghost before = out@;
    out.push((n / 0x100_0000) as u8);
    out.push((n / 0x1_0000 % 256) as u8);
    out.push((n / 256 % 256) as u8);
    out.push((n % 256) as u8);
    proof {
        assert(out@ =~= before + be32(n));
    }
}

/// Appends sixteen bytes, the most significant first.
pub fn push_be128(out: &mut Vec<u8>, n: u128)
    ensures
        final(out)@ == old(out)@ + be128(n),
{
    let ghost before = out@;
    push_be32(out, (n / 0x1_0000_0000_0000_0000_0000_0000) as u32);
    push_be32(out, (n / 0x1_0000_0000_0000_0000 % 0x1_0000_0000) as u32);
    push_be32(out, (n / 0x1_0000_0000 % 0x1_0000_0000) as u32);
    push_be32(out, (n % 0x1_0000_0000) as u32);
    proof {
        assert(out@ =~= before + be128(n));
    }
}

/// Appends two bytes, the less significant first.
pub fn push_le16(out: &mut Vec<u8>, n: u16)
    ensures
        final(out)@ == old(out)@ + le16(n),
{
    let ghost before = out@;
    out.push((n % 256) as u8);
    out.push((n / 256) as u8);
    proof {
        assert(out@ =~= before + le16(n));
    }
}

/// Appends four bytes, the least significant first.
pub fn push_le32(out: &mut Vec<u8>, n: u32)
    ensures
        final(out)@ == old(out)@ + le32(n),
{
    let ghost before = out@;
    out.push((n % 256) as u8);
    out.push((n / 256 % 256) as u8);
    out.push((n / 0x1_0000 % 256) as u8);
    out.push((n / 0x100_0000) as u8);
    proof {
        assert(out@ =~= before + le32(n));
    }
}

/// Reads two bytes at `i`, the more significant first.
pub fn read_be16(s: &[u8], i: usize) -> (r: u16)
    requires
        i + 2 <= s@.len(),
    ensures
        r == be16_value(s@[i as int], s@[i + 1]),
{
    s[i] as u16 * 256 + s[i + 1] as u16
}

/// Reads four bytes at `i`, the least significant first.
pub fn read_le32(s: &[u8], i: usize) -> (r: u32)
    requires
        i + 4 <= s@.len(),
    ensures
        r == le32_at(s@, i as int),
{
    s[i] as u32 + s[i + 1] as u32 * 256 + s[i + 2] as u32 * 0x1_0000 + s[i + 3] as u32
        * 0x100_0000
}

/// Reads two bytes at `i`, in the given order.
pub fn read16(s: &[u8], i: usize, order: ByteOrder) -> (r: u16)
    requires
        i + 2 <= s@.len(),
    ensures
        r == num16_at(s@, i as int, order),
{
    reveal(num16_at);
    match order {
        ByteOrder::Little => s[i] as u16 + s[i + 1] as u16 * 256,
        ByteOrder::Big => read_be16(s, i),
    }
}

/// Reads four bytes at `i`, in the given order.
pub fn read32(s: &[u8], i: usize, order: ByteOrder) -> (r: u32)
    requires
        i + 4 <= s@.len(),
    ensures
        r == num32_at(s@, i as int, order),
{
    reveal(num32_at);
    match order {
        ByteOrder::Little => read_le32(s, i),
        ByteOrder::Big => s[i] as u32 * 0x100_0000 + s[i + 1] as u32 * 0x1_0000 + s[i + 2] as u32
            * 256 + s[i + 3] as u32,
    }
}

/// The bytes of a number as this machine keeps them, by `u16::to_ne_bytes`.
///
/// Claimed: they stand in one of the two orders. Which one depends on the
/// machine and is not stated.
#[verifier::external_body]
pub(crate) fn native_bytes(n: u16) -> (r: [u8; 2])
    ensures
        r@ == le16(n) || r@ == be16(n),
{
    n.to_ne_bytes()
}

/// The order of the bytes of a machine, given how it keeps the number one.
pub fn order_of_one(one: &[u8]) -> (r: ByteOrder)
    requires
        one@.len() == 2,
    ensures
        one@ == le16(1) ==> r is Little,
        one@ == be16(1) ==> r is Big,
        r == (if one@[0] == 1 {
            ByteOrder::Little
        } else {
            ByteOrder::Big
        }),
{
    if one[0] == 1 {
        ByteOrder::Little
    } else {
        ByteOrder::Big
    }
}

/// The text whose UTF-8 form `bytes` is: `std::str::from_utf8` succeeds on
/// valid UTF-8 and on nothing else, and the string has exactly these bytes.
#[verifier::external_body]
pub(crate) fn text_from_utf8(bytes: &[u8]) -> (r: Option<&str>)
    ensures
        match r {
            Some(s) => valid_utf8(bytes@) && s@ == decode_utf8(bytes@),
            None => !valid_utf8(bytes@),
        },
{
    std::str::from_utf8(bytes).ok()
}

/// Four bytes read back the number that they were written for.
pub proof fn le32_reads_back(n: u32, rest: Seq<u8>)
    ensures
        le32(n).len() == 4,
        le32_at(le32(n) + rest, 0) == n,
{
    let s = le32(n) + rest;
    assert(s[0] == (n % 256) as u8);
    assert(s[1] == (n / 256 % 256) as u8);
    assert(s[2] == (n / 0x1_0000 % 256) as u8);
    assert(s[3] == (n / 0x100_0000) as u8);
}

/// Two and four bytes read back the number that they were written for, in
/// either order.
pub proof fn numbers_read_back(n: u16, m: u32)
    ensures
        num16_at(le16(n), 0, ByteOrder::Little) == n,
        num16_at(be16(n), 0, ByteOrder::Big) == n,
        num32_at(le32(m), 0, ByteOrder::Little) == m,
        num32_at(be32(m), 0, ByteOrder::Big) == m,
{
    reveal(num16_at);
    reveal(num32_at);
    le32_reads_back(m, Seq::empty());
    assert(le32(m) + Seq::<u8>::empty() =~= le32(m));
}

/// The number that bytes stand for, the most significant first.
pub open spec fn big_endian(s: Seq<u8>) -> nat
    decreases s.len(),
{
    if s.len() == 0 {
        0
    } else {
        256 * big_endian(s.drop_last()) + s.last() as nat
    }
}

/// Four more bytes move a number up by 32 bits.
proof fn lemma_four_more(s: Seq<u8>, n: u32)
    ensures
        big_endian(s + be32(n)) == 0x1_0000_0000 * big_endian(s) + n,
{
    let b = be32(n);
    let s1 = s.push(b[0]);
    let s2 = s1.push(b[1]);
    let s3 = s2.push(b[2]);
    let s4 = s3.push(b[3]);
    assert(s + b =~= s4);
    assert(s4.drop_last() =~= s3 && s3.drop_last() =~= s2 && s2.drop_last() =~= s1
        && s1.drop_last() =~= s);
    assert(big_endian(s1) == 256 * big_endian(s) + b[0]);
    assert(big_endian(s2) == 256 * big_endian(s1) + b[1]);
    assert(big_endian(s3) == 256 * big_endian(s2) + b[2]);
    assert(big_endian(s4) == 256 * big_endian(s3) + b[3]);
    assert(n == ((b[0] * 256 + b[1]) * 256 + b[2]) * 256 + b[3]);
}

/// A number of 128 bits is put together from its four words.
proof fn lemma_four_words(c: u128)
    ensures
        c == ((c / 0x1_0000_0000_0000_0000_0000_0000 * 0x1_0000_0000 + c
            / 0x1_0000_0000_0000_0000 % 0x1_0000_0000) * 0x1_0000_0000 + c / 0x1_0000_0000
            % 0x1_0000_0000) * 0x1_0000_0000 + c % 0x1_0000_0000,
        c / 0x1_0000_0000_0000_0000_0000_0000 < 0x1_0000_0000,
{
    let low = c / 0x1_0000_0000;
    let mid = c / 0x1_0000_0000_0000_0000;
    assert(mid == low / 0x1_0000_0000);
    assert(c / 0x1_0000_0000_0000_0000_0000_0000 == mid / 0x1_0000_0000);
}

/// Sixteen bytes stand for their number.
proof fn lemma_sixteen_bytes(c: u128)
    ensures
        be128(c).len() == 16 && big_endian(be128(c)) == c,
{
    let none = Seq::<u8>::empty();
    let c1 = (c / 0x1_0000_0000_0000_0000_0000_0000) as u32;
    let c2 = (c / 0x1_0000_0000_0000_0000 % 0x1_0000_0000) as u32;
    let c3 = (c / 0x1_0000_0000 % 0x1_0000_0000) as u32;
    let c4 = (c % 0x1_0000_0000) as u32;
    lemma_four_words(c);
    lemma_four_more(none, c1);
    assert(none + be32(c1) =~= be32(c1));
    lemma_four_more(be32(c1), c2);
    lemma_four_more(be32(c1) + be32(c2), c3);
    lemma_four_more(be32(c1) + be32(c2) + be32(c3), c4);
}

/// The bytes of a number stand for that number, and there are as many as its
/// kind takes.
pub proof fn bytes_stand_for_their_number(a: u16, b: u32, c: u128)
    ensures
        be16(a).len() == 2 && big_endian(be16(a)) == a,
        be32(b).len() == 4 && big_endian(be32(b)) == b,
        be128(c).len() == 16 && big_endian(be128(c)) == c,
        big_endian(le16(a).reverse()) == a,
        big_endian(le32(b).reverse()) == b,
{
    let none = Seq::<u8>::empty();
    let s = be16(a);
    assert(s.drop_last() =~= none.push(s[0]));
    assert(none.push(s[0]).drop_last() =~= none);
    assert(big_endian(none) == 0);
    assert(big_endian(none.push(s[0])) == 256 * big_endian(none) + s[0]);
    lemma_four_more(none, b);
    assert(none + be32(b) =~= be32(b));
    lemma_sixteen_bytes(c);
    assert(le16(a).reverse() =~= be16(a));
    assert(le32(b).reverse() =~= be32(b));
}

/// Two bytes in the given order.
pub open spec fn bytes16(n: u16, order: ByteOrder) -> Seq<u8> {
    match order {
        ByteOrder::Little => seq![(n % 256) as u8, (n / 256) as u8],
        ByteOrder::Big => seq![(n / 256) as u8, (n % 256) as u8],
    }
}

/// Four bytes in the given order.
pub open spec fn bytes32(n: u32, order: ByteOrder) -> Seq<u8> {
    match order {
        ByteOrder::Little => seq![
            (n % 256) as u8,
            (n / 256 % 256) as u8,
            (n / 0x1_0000 % 256) as u8,
            (n / 0x100_0000) as u8,
        ],
        ByteOrder::Big => seq![
            (n / 0x100_0000) as u8,
            (n / 0x1_0000 % 256) as u8,
            (n / 256 % 256) as u8,
            (n % 256) as u8,
        ],
    }
}

/// A number is read back wherever its bytes stand, in the order in which they
/// were written.
pub proof fn numbers_are_read_in_place(
    before: Seq<u8>,
    n: u16,
    m: u32,
    behind: Seq<u8>,
    order: ByteOrder,
)
    ensures
        num16_at(before + bytes16(n, order) + behind, before.len() as int, order) == n,
        num32_at(before + bytes32(m, order) + behind, before.len() as int, order) == m,
{
    reveal(num16_at);
    reveal(num32_at);
    let i = before.len() as int;
    let s = before + bytes16(n, order) + behind;
    assert(s[i] == bytes16(n, order)[0] && s[i + 1] == bytes16(n, order)[1]);
    let t = before + bytes32(m, order) + behind;
    let b = bytes32(m, order);
    assert(t[i] == b[0] && t[i + 1] == b[1] && t[i + 2] == b[2] && t[i + 3] == b[3]);
}

/// What stands before a number does not matter for reading it.
pub proof fn numbers_move_with_their_bytes(
    before: Seq<u8>,
    s: Seq<u8>,
    i: int,
    order: ByteOrder,
)
    requires
        0 <= i,
    ensures
        i + 2 <= s.len() ==> num16_at(before + s, before.len() + i, order) == num16_at(s, i, order),
        i + 4 <= s.len() ==> num32_at(before + s, before.len() + i, order) == num32_at(s, i, order),
{
    reveal(num16_at);
    reveal(num32_at);
    let t = before + s;
    let j = before.len() + i;
    if i + 2 <= s.len() {
        assert(t[j] == s[i] && t[j + 1] == s[i + 1]);
    }
    if i + 4 <= s.len() {
        assert(t[j + 2] == s[i + 2] && t[j + 3] == s[i + 3]);
    }
}

} // verus!
