//! Numbers as text: reading unsigned numerals and printing integers.

use vstd::prelude::*;

use crate::text::chars_of;

verus! {

/// The value of a digit, where `c` is a digit of the radix.
pub open spec fn digit(c: char, radix: nat) -> Option<nat> {
    let n = c as u32 as int;
    let v = if '0' <= c <= '9' {
        n - 48
    } else if 'a' <= c <= 'f' {
        n - 87
    } else if 'A' <= c <= 'F' {
        n - 55
    } else {
        16
    };
    if v < radix {
        Some(v as nat)
    } else {
        None
    }
}

/// The number that a run of digits stands for, the most significant first.
pub open spec fn numeral(s: Seq<char>, radix: nat) -> Option<nat>
    decreases s.len(),
{
    if s.len() == 0 {
        Some(0)
    } else {
        match (numeral(s.drop_last(), radix), digit(s.last(), radix)) {
            (Some(high), Some(low)) => Some(high * radix + low),
            _ => None,
        }
    }
}

/// The number that `s` stands for: digits, with at most one plus sign in front.
pub open spec fn unsigned(s: Seq<char>, radix: nat) -> Option<nat> {
    let digits = if s.len() > 0 && s[0] == '+' {
        s.skip(1)
    } else {
        s
    };
    if digits.len() == 0 {
        None
    } else {
        numeral(digits, radix)
    }
}

/// The number that `s` stands for, if it is at most `max`.
pub open spec fn unsigned_to(s: Seq<char>, radix: nat, max: nat) -> Option<nat> {
    match unsigned(s, radix) {
        Some(v) => if v <= max {
            Some(v)
        } else {
            None
        },
        None => None,
    }
}

/// The value of a digit of the radix.
fn digit_of(c: char, radix: u32) -> (r: Option<u32>)
    requires
        2 <= radix <= 16,
    ensures
        match r {
            Some(v) => digit(c, radix as nat) == Some(v as nat),
            None => digit(c, radix as nat) is None,
        },
        r matches Some(v) ==> v < radix,
{
    let n: u32 = c as u32;
    let v: u32 = if '0' <= c && c <= '9' {
        n - 48
    } else if 'a' <= c && c <= 'f' {
        n - 87
    } else if 'A' <= c && c <= 'F' {
        n - 55
    } else {
        16
    };
    if v < radix {
        Some(v)
    } else {
        None
    }
}

/// Reads an unsigned number of at most `max`, written in the given radix.
pub fn parse_unsigned(s: &str, radix: u32, max: u64) -> (r: Option<u64>)
    requires
        2 <= radix <= 16,
    ensures
        match r {
            Some(v) => unsigned_to(s@, radix as nat, max as nat) == Some(v as nat),
            None => unsigned_to(s@, radix as nat, max as nat) is None,
        },
{
    let chars = chars_of(s);
    let start: usize = if chars.len() > 0 && chars[0] == '+' {
        1
    } else {
        0
    };
    if chars.len() == start {
        return None;
    }
    let ghost digits = chars@.skip(start as int);
    proof {
        if start == 0 {
            assert(digits =~= chars@);
        }
        assert(digits.take(0) =~= Seq::<char>::empty());
    }
    let mut acc: u64 = 0;
    let mut over = false;
    let mut i: usize = start;
    while i < chars.len()
        invariant
            start <= i <= chars@.len(),
            2 <= radix <= 16,
            digits == chars@.skip(start as int),
            unsigned(s@, radix as nat) == numeral(digits, radix as nat),
            numeral(digits.take(i - start), radix as nat) is Some,
            ({
                let v = numeral(digits.take(i - start), radix as nat)->0;
                if over {
                    v > max
                } else {
                    v == acc && acc <= max
                }
            }),
        decreases chars@.len() - i,
    {
        let ghost k = i - start;
        let ghost high = numeral(digits.take(k), radix as nat)->0;
        proof {
            assert(digits.take(k + 1).drop_last() =~= digits.take(k));
            assert(digits.take(k + 1).last() == chars@[i as int]);
        }
        match digit_of(chars[i], radix) {
            None => {
                proof {
                    lemma_bad_digit(digits, k, radix as nat);
                }
                return None;
            },
            Some(d) => {
                proof {
                    assert(high * radix >= high) by (nonlinear_arith)
                        requires
                            radix >= 1,
                            high >= 0,
                    ;
                }
                if !over {
                    assert(acc as u128 * radix as u128 <= 0xffff_ffff_ffff_ffff * 16)
                        by (nonlinear_arith)
                        requires
                            acc <= 0xffff_ffff_ffff_ffff,
                            radix <= 16,
                    ;
                    let next: u128 = acc as u128 * radix as u128 + d as u128;
                    if next <= max as u128 {
                        acc = next as u64;
                    } else {
                        over = true;
                    }
                }
            },
        }
        i += 1;
    }
    proof {
        assert(digits.take(digits.len() as int) =~= digits);
    }
    if over {
        None
    } else {
        Some(acc)
    }
}

/// A text with a character that is no digit is no numeral.
proof fn lemma_bad_digit(s: Seq<char>, k: int, radix: nat)
    requires
        0 <= k < s.len(),
        digit(s[k], radix) is None,
    ensures
        numeral(s, radix) is None,
    decreases s.len(),
{
    if k < s.len() - 1 {
        lemma_bad_digit(s.drop_last(), k, radix);
    }
}

/// The decimal numeral of `n`.
pub open spec fn decimal(n: nat) -> Seq<char>
    decreases n,
{
    if n < 10 {
        seq![(48 + n) as char]
    } else {
        decimal(n / 10).push((48 + n % 10) as char)
    }
}

/// The decimal numeral of an integer, with a minus sign where it is negative.
pub open spec fn signed_decimal(n: int) -> Seq<char> {
    if n < 0 {
        seq!['-'] + decimal((-n) as nat)
    } else {
        decimal(n as nat)
    }
}

/// Prints `n` in decimal.
pub fn to_decimal(n: u64) -> (r: String)
    ensures
        r@ == decimal(n as nat),
    decreases n,
{
    let low: u8 = (n % 10) as u8;
    let c: char = (48 + low) as char;
    if n < 10 {
        let mut out = String::new();
        out.push(c);
        proof {
            assert(out@ =~= decimal(n as nat));
        }
        out
    } else {
        let mut out = to_decimal(n / 10);
        out.push(c);
        out
    }
}

/// A decimal numeral holds digits only, and reads back as its number.
pub proof fn decimal_reads_back(n: nat)
    ensures
        decimal(n).len() > 0,
        decimal(n)[0] != '+',
        numeral(decimal(n), 10) == Some(n),
        unsigned(decimal(n), 10) == Some(n),
    decreases n,
{
    let low = (48 + n % 10) as char;
    assert(digit(low, 10) == Some(n % 10));
    if n < 10 {
        assert(decimal(n).drop_last() =~= Seq::<char>::empty());
        assert(numeral(Seq::<char>::empty(), 10) == Some(0nat));
    } else {
        decimal_reads_back(n / 10);
        assert(decimal(n).drop_last() =~= decimal(n / 10));
        assert(decimal(n)[0] == decimal(n / 10)[0]);
    }
}

/// The digit of a hexadecimal numeral for `v`, in lower case.
pub open spec fn hex_digit(v: nat) -> char {
    if v < 10 {
        (48 + v) as char
    } else {
        (87 + v) as char
    }
}

/// The hexadecimal numeral of `n`, in lower case.
pub open spec fn hex(n: nat) -> Seq<char>
    decreases n,
{
    if n < 16 {
        seq![hex_digit(n)]
    } else {
        hex(n / 16).push(hex_digit(n % 16))
    }
}

/// Prints `n` in hexadecimal, in lower case.
pub fn to_hex(n: u64) -> (r: String)
    ensures
        r@ == hex(n as nat),
    decreases n,
{
    let low: u8 = (n % 16) as u8;
    let c: char = if low < 10 {
        (48 + low) as char
    } else {
        (87 + low) as char
    };
    if n < 16 {
        let mut out = String::new();
        out.push(c);
        proof {
            assert(out@ =~= hex(n as nat));
        }
        out
    } else {
        let mut out = to_hex(n / 16);
        out.push(c);
        out
    }
}

/// Prints a signed number in decimal.
pub fn to_signed_decimal(n: i64) -> (r: String)
    ensures
        r@ == signed_decimal(n as int),
{
    if n >= 0 {
        to_decimal(n as u64)
    } else {
        let mut out = String::new();
        out.push('-');
        let m: u64 = (-(n as i128)) as u64;
        out.append(to_decimal(m).as_str());
        proof {
            assert(out@ =~= signed_decimal(n as int));
        }
        out
    }
}

/// A hexadecimal numeral reads back as its number, in either case, and so does
/// a numeral behind a plus sign.
pub proof fn hex_reads_back(n: nat)
    ensures
        hex(n).len() > 0,
        hex(n)[0] != '+',
        numeral(hex(n), 16) == Some(n),
        unsigned(hex(n), 16) == Some(n),
        unsigned(seq!['+'] + decimal(n), 10) == Some(n),
    decreases n,
{
    let low = hex_digit(n % 16);
    assert(digit(low, 16) == Some(n % 16));
    if n < 16 {
        assert(hex(n).drop_last() =~= Seq::<char>::empty());
        assert(numeral(Seq::<char>::empty(), 16) == Some(0nat));
    } else {
        hex_reads_back(n / 16);
        assert(hex(n).drop_last() =~= hex(n / 16));
        assert(hex(n)[0] == hex(n / 16)[0]);
    }
    decimal_reads_back(n);
    assert((seq!['+'] + decimal(n)).skip(1) =~= decimal(n));
}

/// Digits count from zero: those of decimal from 0 to 9, those of hexadecimal on
/// to f, in either case. A character is a digit of a radix only if its value is
/// below it.
pub proof fn digits_count_from_zero(v: nat, c: char, radix: nat)
    requires
        radix <= 16,
    ensures
        v < 10 && v < radix ==> digit((48 + v) as char, radix) == Some(v),
        10 <= v < radix ==> digit((87 + v) as char, radix) == Some(v) && digit(
            (55 + v) as char,
            radix,
        ) == Some(v),
        digit(c, radix) matches Some(d) ==> d < radix && (c as u32 == 48 + d && d < 10 || c as u32
            == 87 + d && d >= 10 || c as u32 == 55 + d && d >= 10),
{
}

/// Only digits make a number, but for a plus sign in front: a text that reads as
/// a number has nothing else, and has at least one digit.
pub proof fn numbers_are_digits_only(s: Seq<char>, radix: nat, max: nat, i: int)
    requires
        unsigned_to(s, radix, max) is Some,
        0 <= i < s.len(),
    ensures
        unsigned_to(s, radix, max)->0 <= max,
        unsigned_to(s, radix, max) == unsigned(s, radix),
        i > 0 || s[0] != '+' ==> digit(s[i], radix) is Some,
        s.len() > 1 || s[0] != '+',
{
    let digits = if s[0] == '+' {
        s.skip(1)
    } else {
        s
    };
    if i > 0 || s[0] != '+' {
        let k = if s[0] == '+' {
            i - 1
        } else {
            i
        };
        assert(digits[k] == s[i]);
        if digit(s[i], radix) is None {
            lemma_bad_digit(digits, k, radix);
        }
    }
}

/// A number in plain decimal is taken exactly up to the limit.
pub proof fn limit_is_kept(n: nat, max: nat)
    ensures
        n <= max ==> unsigned_to(decimal(n), 10, max) == Some(n),
        n > max ==> unsigned_to(decimal(n), 10, max) is None,
{
    decimal_reads_back(n);
}

/// A decimal numeral has the digits of its number, the last of them that of the
/// ones; a negative number has a minus sign before them.
pub proof fn decimal_grows_by_digits(n: nat, d: nat)
    requires
        d < 10,
    ensures
        decimal(d) == seq![(48 + d) as char],
        n > 0 ==> decimal(10 * n + d) == decimal(n).push((48 + d) as char),
        n > 0 ==> signed_decimal(-(n as int)) == seq!['-'] + decimal(n),
        signed_decimal(n as int) == decimal(n),
{
    if n > 0 {
        assert((10 * n + d) / 10 == n && (10 * n + d) % 10 == d);
    }
}

} // verus!
