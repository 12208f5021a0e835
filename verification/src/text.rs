//! Text as sequences of characters.
//!
//! Strings are viewed as `Seq<char>`. The functions here trim, split, compare,
//! read and print text; every other module states its contracts with the
//! specification functions of this one.

use vstd::prelude::*;

use crate::value::views;

verus! {

/// Appends one character: `String::push` adds `c` behind the last character.
pub assume_specification[ String::push ](s: &mut String, c: char)
    ensures
        final(s)@ == old(s)@.push(c),
;

/// The characters with the Unicode property `White_Space`.
pub open spec fn white(c: char) -> bool {
    let n = c as u32;
    ||| 0x9 <= n <= 0xd
    ||| n == 0x20
    ||| n == 0x85
    ||| n == 0xa0
    ||| n == 0x1680
    ||| 0x2000 <= n <= 0x200a
    ||| n == 0x2028
    ||| n == 0x2029
    ||| n == 0x202f
    ||| n == 0x205f
    ||| n == 0x3000
}

/// Whether `c` is white space.
pub fn is_white(c: char) -> (r: bool)
    ensures
        r == white(c),
{
    let n: u32 = c as u32;
    (0x9 <= n && n <= 0xd) || n == 0x20 || n == 0x85 || n == 0xa0 || n == 0x1680 || (0x2000 <= n
        && n <= 0x200a) || n == 0x2028 || n == 0x2029 || n == 0x202f || n == 0x205f || n == 0x3000
}

/// The ASCII lower-case form of one character.
pub open spec fn lower_char(c: char) -> char {
    if 'A' <= c <= 'Z' {
        (c as u32 + 32) as char
    } else {
        c
    }
}

/// The ASCII lower-case form of a text.
pub open spec fn lower(s: Seq<char>) -> Seq<char> {
    s.map_values(|c: char| lower_char(c))
}

/// The text without its leading white space.
pub open spec fn trim_start(s: Seq<char>) -> Seq<char>
    decreases s.len(),
{
    if s.len() > 0 && white(s[0]) {
        trim_start(s.skip(1))
    } else {
        s
    }
}

/// The text without its trailing white space.
pub open spec fn trim_end(s: Seq<char>) -> Seq<char>
    decreases s.len(),
{
    if s.len() > 0 && white(s.last()) {
        trim_end(s.drop_last())
    } else {
        s
    }
}

/// The text without white space at either end.
pub open spec fn trimmed(s: Seq<char>) -> Seq<char> {
    trim_end(trim_start(s))
}

/// The text without any trailing run of `c`.
pub open spec fn strip_end(s: Seq<char>, c: char) -> Seq<char>
    decreases s.len(),
{
    if s.len() > 0 && s.last() == c {
        strip_end(s.drop_last(), c)
    } else {
        s
    }
}

/// The characters of a string.
pub fn chars_of(s: &str) -> (r: Vec<char>)
    ensures
        r@ == s@,
{
    let mut out: Vec<char> = Vec::new();
    for c in it: s.chars()
        invariant
            out@ == s@.take(it.index() as int),
            it.seq() == s@,
    {
        proof {
            assert(s@.take(it.index() + 1) =~= s@.take(it.index() as int).push(s@[it.index() as int]));
        }
        out.push(c);
    }
    proof {
        assert(s@.take(s@.len() as int) =~= s@);
    }
    out
}

/// The string made of `chars`.
pub fn string_of(chars: &[char]) -> (r: String)
    ensures
        r@ == chars@,
{
    let mut out = String::new();
    let mut i: usize = 0;
    while i < chars.len()
        invariant
            i <= chars@.len(),
            out@ == chars@.take(i as int),
        decreases chars@.len() - i,
    {
        proof {
            assert(chars@.take(i + 1) =~= chars@.take(i as int).push(chars@[i as int]));
        }
        out.push(chars[i]);
        i += 1;
    }
    proof {
        assert(chars@.take(i as int) =~= chars@);
    }
    out
}

/// Whether two strings hold the same characters.
pub fn same(a: &str, b: &str) -> (r: bool)
    ensures
        r == (a@ == b@),
{
    a.to_owned() == b.to_owned()
}

/// The ASCII lower-case form of a character.
pub fn lowercase_char(c: char) -> (r: char)
    ensures
        r == lower_char(c),
{
    if 'A' <= c && c <= 'Z' {
        let n: u8 = c as u8;
        (n + 32) as char
    } else {
        c
    }
}

/// The ASCII lower-case form of a string.
pub fn lowercase(s: &str) -> (r: String)
    ensures
        r@ == lower(s@),
{
    let mut out = String::new();
    for c in it: s.chars()
        invariant
            out@ == lower(s@.take(it.index() as int)),
            it.seq() == s@,
    {
        proof {
            assert(lower(s@.take(it.index() + 1)) =~= lower(s@.take(it.index() as int)).push(
                lower_char(s@[it.index() as int]),
            ));
        }
        out.push(lowercase_char(c));
    }
    proof {
        assert(s@.take(s@.len() as int) =~= s@);
    }
    out
}

/// The string without white space at either end.
pub fn trim(s: &str) -> (r: String)
    ensures
        r@ == trimmed(s@),
{
    let chars = chars_of(s);
    let mut i: usize = 0;
    proof {
        assert(chars@.skip(0) =~= chars@);
    }
    while i < chars.len() && is_white(chars[i])
        invariant
            i <= chars@.len(),
            trim_start(chars@) == trim_start(chars@.skip(i as int)),
        decreases chars@.len() - i,
    {
        proof {
            assert(chars@.skip(i as int).skip(1) =~= chars@.skip(i + 1));
        }
        i += 1;
    }
    let mut j: usize = chars.len();
    proof {
        assert(chars@.subrange(i as int, j as int) =~= chars@.skip(i as int));
    }
    while i < j && is_white(chars[j - 1])
        invariant
            i <= j <= chars@.len(),
            trimmed(chars@) == trim_end(chars@.subrange(i as int, j as int)),
        decreases j - i,
    {
        proof {
            assert(chars@.subrange(i as int, j as int).drop_last() =~= chars@.subrange(
                i as int,
                j - 1,
            ));
        }
        j -= 1;
    }
    string_of(&chars[i..j])
}

/// The string without its trailing run of `c`.
pub fn trim_end_char(s: &str, c: char) -> (r: String)
    ensures
        r@ == strip_end(s@, c),
{
    let chars = chars_of(s);
    let mut j: usize = chars.len();
    proof {
        assert(chars@.take(j as int) =~= chars@);
    }
    while 0 < j && chars[j - 1] == c
        invariant
            j <= chars@.len(),
            strip_end(chars@, c) == strip_end(chars@.take(j as int), c),
        decreases j,
    {
        proof {
            assert(chars@.take(j as int).drop_last() =~= chars@.take(j - 1));
        }
        j -= 1;
    }
    proof {
        assert(chars@.subrange(0, j as int) =~= chars@.take(j as int));
    }
    string_of(&chars[0..j])
}

/// Whether `s` begins with `prefix`.
pub open spec fn begins(s: Seq<char>, prefix: Seq<char>) -> bool {
    prefix.len() <= s.len() && s.take(prefix.len() as int) == prefix
}

/// Whether `s` ends with `suffix`.
pub open spec fn ends(s: Seq<char>, suffix: Seq<char>) -> bool {
    suffix.len() <= s.len() && s.skip(s.len() - suffix.len()) == suffix
}

/// Whether the characters of `s` from `at` on begin with those of `part`.
fn matches_at(s: &[char], at: usize, part: &[char]) -> (r: bool)
    requires
        at <= s@.len(),
    ensures
        r == begins(s@.skip(at as int), part@),
{
    let n: usize = s.len();
    if part.len() > n - at {
        return false;
    }
    let mut i: usize = 0;
    while i < part.len()
        invariant
            n == s@.len(),
            i <= part@.len() <= n - at,
            forall|k: int| 0 <= k < i ==> s@[at + k] == part@[k],
        decreases part@.len() - i,
    {
        if s[at + i] != part[i] {
            proof {
                assert(s@.skip(at as int).take(part@.len() as int)[i as int] == s@[at + i]);
            }
            return false;
        }
        i += 1;
    }
    proof {
        assert(s@.skip(at as int).take(part@.len() as int) =~= part@);
    }
    true
}

/// Whether `s` begins with `prefix`.
pub fn starts_with(s: &str, prefix: &str) -> (r: bool)
    ensures
        r == begins(s@, prefix@),
{
    let chars = chars_of(s);
    proof {
        assert(chars@.skip(0) =~= chars@);
    }
    matches_at(&chars, 0, &chars_of(prefix))
}

/// Whether `s` ends with `suffix`.
pub fn ends_with(s: &str, suffix: &str) -> (r: bool)
    ensures
        r == ends(s@, suffix@),
{
    let chars = chars_of(s);
    let part = chars_of(suffix);
    if part.len() > chars.len() {
        return false;
    }
    proof {
        let tail = chars@.skip(chars@.len() - part@.len());
        assert(tail.take(part@.len() as int) =~= tail);
    }
    matches_at(&chars, chars.len() - part.len(), &part)
}

/// The string without its first `n` characters.
pub fn skip_chars(s: &str, n: usize) -> (r: String)
    requires
        n <= s@.len(),
    ensures
        r@ == s@.skip(n as int),
{
    let chars = chars_of(s);
    string_of(&chars[n..chars.len()])
}

/// The string without its last `n` characters.
pub fn drop_chars(s: &str, n: usize) -> (r: String)
    requires
        n <= s@.len(),
    ensures
        r@ == s@.take(s@.len() - n),
{
    let chars = chars_of(s);
    let k: usize = chars.len() - n;
    proof {
        assert(chars@.subrange(0, k as int) =~= chars@.take(k as int));
    }
    string_of(&chars[0..k])
}

/// The pieces between the characters that `sep` picks, empty pieces included.
pub open spec fn pieces(s: Seq<char>, sep: spec_fn(char) -> bool) -> Seq<Seq<char>>
    decreases s.len(),
{
    if s.len() == 0 {
        seq![Seq::<char>::empty()]
    } else {
        let before = pieces(s.drop_last(), sep);
        if sep(s.last()) {
            before.push(Seq::empty())
        } else {
            before.drop_last().push(before.last().push(s.last()))
        }
    }
}

/// The test that picks `c` alone.
pub open spec fn only(c: char) -> spec_fn(char) -> bool {
    |x: char| x == c
}

/// The pieces of `s` between occurrences of `c`.
pub open spec fn split(s: Seq<char>, c: char) -> Seq<Seq<char>> {
    pieces(s, only(c))
}

/// The words of `s`: its longest runs without white space.
pub open spec fn words(s: Seq<char>) -> Seq<Seq<char>> {
    pieces(s, |x: char| white(x)).filter(|w: Seq<char>| w.len() > 0)
}

/// One line without the carriage return before its line feed.
pub open spec fn strip_return(line: Seq<char>) -> Seq<char> {
    if line.len() > 0 && line.last() == '\r' {
        line.drop_last()
    } else {
        line
    }
}

/// The lines of `s`: each ends at a line feed, which may follow a carriage
/// return; what stands behind the last line feed is a line unless it is empty.
pub open spec fn lines(s: Seq<char>) -> Seq<Seq<char>> {
    let parts = split(s, '\n');
    let ended = parts.drop_last().map_values(|l: Seq<char>| strip_return(l));
    if parts.last().len() > 0 {
        ended.push(parts.last())
    } else {
        ended
    }
}

/// The views of a list of strings.
pub open spec fn texts(v: Seq<String>) -> Seq<Seq<char>> {
    views(v)
}

/// Cutting a text gives at least one piece.
pub proof fn lemma_pieces_nonempty(s: Seq<char>, sep: spec_fn(char) -> bool)
    ensures
        pieces(s, sep).len() > 0,
    decreases s.len(),
{
    if s.len() > 0 {
        lemma_pieces_nonempty(s.drop_last(), sep);
    }
}

/// The pieces of `s` between occurrences of `c`.
pub fn split_char(s: &str, c: char) -> (r: Vec<String>)
    ensures
        texts(r@) == split(s@, c),
        r@.len() > 0,
{
    let chars = chars_of(s);
    let ghost sep = only(c);
    let mut out: Vec<String> = Vec::new();
    let mut cur = String::new();
    let mut i: usize = 0;
    proof {
        assert(texts(out@).push(cur@) =~= pieces(chars@.take(0), sep));
    }
    while i < chars.len()
        invariant
            i <= chars@.len(),
            sep == only(c),
            texts(out@).push(cur@) == pieces(chars@.take(i as int), sep),
        decreases chars@.len() - i,
    {
        proof {
            assert(chars@.take(i + 1).drop_last() =~= chars@.take(i as int));
            assert(texts(out@).push(cur@).drop_last() =~= texts(out@));
        }
        if chars[i] == c {
            let ghost before = out@;
            out.push(cur);
            cur = String::new();
            proof {
                assert(texts(out@) =~= texts(before).push(out@.last()@));
            }
        } else {
            cur.push(chars[i]);
        }
        i += 1;
    }
    let ghost before = out@;
    out.push(cur);
    proof {
        assert(chars@.take(i as int) =~= chars@);
        assert(texts(out@) =~= texts(before).push(cur@));
    }
    out
}

/// The words of `s`.
pub fn split_words(s: &str) -> (r: Vec<String>)
    ensures
        texts(r@) == words(s@),
{
    let chars = chars_of(s);
    let ghost sep = |x: char| white(x);
    let ghost full = |w: Seq<char>| w.len() > 0;
    let mut out: Vec<String> = Vec::new();
    let mut cur = String::new();
    let mut i: usize = 0;
    let ghost mut done: Seq<Seq<char>> = Seq::empty();
    proof {
        assert(done.push(cur@) =~= pieces(chars@.take(0), sep));
        reveal(Seq::filter);
        assert(texts(out@) =~= done.filter(full));
    }
    while i < chars.len()
        invariant
            i <= chars@.len(),
            sep == (|x: char| white(x)),
            full == (|w: Seq<char>| w.len() > 0),
            done.push(cur@) == pieces(chars@.take(i as int), sep),
            texts(out@) == done.filter(full),
        decreases chars@.len() - i,
    {
        proof {
            assert(chars@.take(i + 1).drop_last() =~= chars@.take(i as int));
            assert(done.push(cur@).drop_last() =~= done);
        }
        if is_white(chars[i]) {
            proof {
                lemma_filter_push(done, cur@, full);
                done = done.push(cur@);
            }
            if cur.as_str().is_empty() {
            } else {
                let ghost before = out@;
                out.push(cur);
                proof {
                    assert(texts(out@) =~= texts(before).push(out@.last()@));
                }
            }
            cur = String::new();
        } else {
            cur.push(chars[i]);
        }
        i += 1;
    }
    proof {
        assert(chars@.take(i as int) =~= chars@);
        lemma_filter_push(done, cur@, full);
    }
    if cur.as_str().is_empty() {
    } else {
        let ghost before = out@;
        out.push(cur);
        proof {
            assert(texts(out@) =~= texts(before).push(cur@));
        }
    }
    out
}

/// Filtering a list with one more element behind.
pub proof fn lemma_filter_push<A>(s: Seq<A>, x: A, keep: spec_fn(A) -> bool)
    ensures
        s.push(x).filter(keep) == (if keep(x) { s.filter(keep).push(x) } else { s.filter(keep) }),
{
    reveal(Seq::filter);
    assert(s.push(x).drop_last() =~= s);
}

/// The lines of `s`.
pub fn split_lines(s: &str) -> (r: Vec<String>)
    ensures
        texts(r@) == lines(s@),
{
    let mut parts = split_char(s, '\n');
    let ghost all = texts(parts@);
    let n: usize = parts.len();
    let mut out: Vec<String> = Vec::new();
    let mut i: usize = 0;
    let ghost strip = |l: Seq<char>| strip_return(l);
    while i + 1 < n
        invariant
            0 < n == parts@.len(),
            i < n,
            all == texts(parts@),
            strip == (|l: Seq<char>| strip_return(l)),
            texts(out@) == all.take(i as int).map_values(strip),
        decreases n - i,
    {
        let ghost before = out@;
        let line = chars_of(parts[i].as_str());
        let m: usize = line.len();
        if m > 0 && line[m - 1] == '\r' {
            proof {
                assert(line@.subrange(0, m - 1) =~= line@.drop_last());
            }
            out.push(string_of(&line[0..m - 1]));
        } else {
            out.push(string_of(&line));
        }
        proof {
            assert(texts(out@) =~= texts(before).push(out@.last()@));
            assert(all.take(i + 1).map_values(strip) =~= all.take(i as int).map_values(strip).push(
                strip(all[i as int]),
            ));
        }
        i += 1;
    }
    let last = parts.pop();
    proof {
        assert(all.take(n - 1) =~= all.drop_last());
    }
    match last {
        Some(rest) => {
            if rest.as_str().is_empty() {
            } else {
                let ghost before = out@;
                out.push(rest);
                proof {
                    assert(texts(out@) =~= texts(before).push(out@.last()@));
                }
            }
        },
        None => {},
    }
    out
}

/// The parts one behind the other, with `sep` between them.
pub open spec fn joined(parts: Seq<Seq<char>>, sep: Seq<char>) -> Seq<char>
    decreases parts.len(),
{
    if parts.len() == 0 {
        Seq::empty()
    } else if parts.len() == 1 {
        parts[0]
    } else {
        joined(parts.drop_last(), sep) + sep + parts.last()
    }
}

/// The parts one behind the other, with `sep` between them.
pub fn join(parts: &[String], sep: &str) -> (r: String)
    ensures
        r@ == joined(texts(parts@), sep@),
{
    let ghost all = texts(parts@);
    let mut out = String::new();
    let mut i: usize = 0;
    while i < parts.len()
        invariant
            i <= parts@.len(),
            all == texts(parts@),
            out@ == joined(all.take(i as int), sep@),
        decreases parts@.len() - i,
    {
        if i > 0 {
            out.append(sep);
        }
        out.append(parts[i].as_str());
        proof {
            assert(all.take(i + 1).drop_last() =~= all.take(i as int));
            if i == 0 {
                assert(out@ =~= all[0]);
            }
        }
        i += 1;
    }
    proof {
        assert(all.take(i as int) =~= all);
    }
    out
}

/// A text in double quotes, with escapes where the `Debug` output of strings
/// has them.
pub uninterp spec fn quoted(s: Seq<char>) -> Seq<char>;

/// Formats a string with `{:?}`, by the `Debug` impl of `str`.
///
/// Claimed: the output is what [`quoted`] names. Which characters are escaped,
/// and how, is not stated.
#[verifier::external_body]
pub(crate) fn quote(s: &str) -> (r: String)
    ensures
        r@ == quoted(s@),
{
    format!("{:?}", s)
}

/// Each text of a list in quotes.
pub open spec fn all_quoted(v: Seq<Seq<char>>) -> Seq<Seq<char>> {
    v.map_values(|s: Seq<char>| quoted(s))
}

/// Texts in square brackets, separated by commas.
pub open spec fn in_brackets(v: Seq<Seq<char>>) -> Seq<char> {
    "["@ + joined(v, ", "@) + "]"@
}

/// Puts texts in square brackets.
pub fn bracketed(items: &[String]) -> (r: String)
    ensures
        r@ == in_brackets(texts(items@)),
{
    let mut out = "[".to_owned();
    out.append(join(items, ", ").as_str());
    out.append("]");
    out
}

/// Puts each string of a list in quotes.
pub fn quote_each(items: &[String]) -> (r: Vec<String>)
    ensures
        texts(r@) == all_quoted(texts(items@)),
{
    let mut out: Vec<String> = Vec::new();
    let mut i: usize = 0;
    while i < items.len()
        invariant
            i == out@.len() <= items@.len(),
            forall|k: int| 0 <= k < i ==> (#[trigger] texts(out@)[k]) == quoted(items@[k]@),
        decreases items@.len() - i,
    {
        let ghost before = out@;
        out.push(quote(items[i].as_str()));
        proof {
            assert(texts(out@) =~= texts(before).push(quoted(items@[i as int]@)));
        }
        i += 1;
    }
    proof {
        assert(texts(out@) =~= all_quoted(texts(items@)));
    }
    out
}

/// A list of strings as `{:?}` shows it.
pub open spec fn debug_list(v: Seq<Seq<char>>) -> Seq<char> {
    in_brackets(all_quoted(v))
}

/// A list of strings as `{:?}` shows it.
pub fn show_list(items: &[String]) -> (r: String)
    ensures
        r@ == debug_list(texts(items@)),
{
    bracketed(&quote_each(items))
}

/// `true` or `false`.
pub open spec fn bool_text(b: bool) -> Seq<char> {
    if b {
        "true"@
    } else {
        "false"@
    }
}

/// `true` or `false`.
pub fn show_bool(b: bool) -> (r: &'static str)
    ensures
        r@ == bool_text(b),
{
    if b {
        "true"
    } else {
        "false"
    }
}

/// Trimming the start takes white space only.
pub proof fn lemma_trim_start(s: Seq<char>)
    ensures
        trim_start(s).len() > 0 ==> !white(trim_start(s)[0]),
        s.len() > 0 && !white(s[0]) ==> trim_start(s) == s,
    decreases s.len(),
{
    if s.len() > 0 && white(s[0]) {
        lemma_trim_start(s.skip(1));
    }
}

/// Trimming the end takes white space only, and leaves the start as it is.
pub proof fn lemma_trim_end(s: Seq<char>)
    ensures
        trim_end(s).len() > 0 ==> !white(trim_end(s).last()) && trim_end(s)[0] == s[0],
        s.len() > 0 && !white(s.last()) ==> trim_end(s) == s,
    decreases s.len(),
{
    if s.len() > 0 && white(s.last()) {
        lemma_trim_end(s.drop_last());
    }
}

/// Stripping a run of a character leaves the start as it is.
pub proof fn lemma_strip_end(s: Seq<char>, c: char)
    ensures
        strip_end(s, c).len() > 0 ==> strip_end(s, c)[0] == s[0],
        strip_end(s, c).len() > 0 ==> strip_end(s, c).last() != c,
        s.len() > 0 && s.last() != c ==> strip_end(s, c) == s,
        strip_end(s.push(c), c) == strip_end(s, c),
    decreases s.len(),
{
    assert(s.push(c).drop_last() =~= s);
    if s.len() > 0 && s.last() == c {
        lemma_strip_end(s.drop_last(), c);
    }
}

/// A text without white space at either end is not changed by trimming.
pub proof fn lemma_trimmed_same(s: Seq<char>)
    requires
        s.len() > 0,
        !white(s[0]),
        !white(s.last()),
    ensures
        trimmed(s) == s,
{
    lemma_trim_start(s);
    lemma_trim_end(s);
}

/// What is left of a trimmed text has no white space at either end.
pub proof fn lemma_trimmed_ends(s: Seq<char>)
    ensures
        trimmed(s).len() > 0 ==> !white(trimmed(s)[0]) && !white(trimmed(s).last()),
{
    lemma_trim_start(s);
    lemma_trim_end(trim_start(s));
}

/// Lower case does not change what is white space, and is there to stay.
pub proof fn lemma_lower_char(c: char)
    ensures
        white(lower_char(c)) == white(c),
        lower_char(lower_char(c)) == lower_char(c),
{
}

/// Trimming and lower case can be done in either order.
pub proof fn lemma_lower_trimmed(s: Seq<char>)
    ensures
        trimmed(lower(s)) == lower(trimmed(s)),
        lower(lower(s)) == lower(s),
{
    lemma_lower_trim_start(s);
    lemma_lower_trim_end(trim_start(s));
    assert forall|i: int| 0 <= i < s.len() implies lower_char(lower_char(#[trigger] s[i]))
        == lower_char(s[i]) by {
        lemma_lower_char(s[i]);
    }
    assert(lower(lower(s)) =~= lower(s));
}

proof fn lemma_lower_trim_start(s: Seq<char>)
    ensures
        trim_start(lower(s)) == lower(trim_start(s)),
    decreases s.len(),
{
    if s.len() > 0 {
        lemma_lower_char(s[0]);
        assert(lower(s).skip(1) =~= lower(s.skip(1)));
        lemma_lower_trim_start(s.skip(1));
    }
}

proof fn lemma_lower_trim_end(s: Seq<char>)
    ensures
        trim_end(lower(s)) == lower(trim_end(s)),
    decreases s.len(),
{
    if s.len() > 0 {
        lemma_lower_char(s.last());
        assert(lower(s).drop_last() =~= lower(s.drop_last()));
        assert(lower(s).last() == lower_char(s.last()));
        lemma_lower_trim_end(s.drop_last());
    }
}

/// The pieces of a text, joined again, are the text.
pub proof fn split_joins_back(s: Seq<char>, c: char)
    ensures
        split(s, c).len() > 0,
        joined(split(s, c), seq![c]) == s,
    decreases s.len(),
{
    let parts = split(s, c);
    if s.len() == 0 {
        assert(joined(parts, seq![c]) =~= s);
    } else {
        let d = s.drop_last();
        split_joins_back(d, c);
        let before = split(d, c);
        assert(s =~= d.push(s.last()));
        if s.last() == c {
            assert(parts.drop_last() =~= before);
            assert(parts.last() =~= Seq::empty());
        } else {
            assert(parts.drop_last() =~= before.drop_last());
            assert(parts.last() == before.last().push(s.last()));
        }
        assert(joined(parts, seq![c]) =~= s);
    }
}

/// A text begins with another exactly if it is that text with something behind
/// it, and ends with another exactly if it is that text with something before
/// it.
pub proof fn parts_of_a_text(s: Seq<char>, part: Seq<char>)
    ensures
        begins(s, part) <==> exists|rest: Seq<char>| s == #[trigger] (part + rest),
        ends(s, part) <==> exists|rest: Seq<char>| s == #[trigger] (rest + part),
{
    let n = part.len() as int;
    if begins(s, part) {
        assert(s =~= part + s.skip(n));
    }
    if exists|rest: Seq<char>| s == #[trigger] (part + rest) {
        let rest = choose|rest: Seq<char>| s == #[trigger] (part + rest);
        assert(s.take(n) =~= part);
    }
    if ends(s, part) {
        assert(s =~= s.take(s.len() - n) + part);
    }
    if exists|rest: Seq<char>| s == #[trigger] (rest + part) {
        let rest = choose|rest: Seq<char>| s == #[trigger] (rest + part);
        assert(s.skip(s.len() - n) =~= part);
    }
}

/// Lower case changes the 26 letters from A to Z, and nothing else.
pub proof fn lower_changes_letters_only(s: Seq<char>, i: int)
    requires
        0 <= i < s.len(),
    ensures
        lower(s).len() == s.len(),
        65 <= s[i] as u32 <= 90 ==> lower(s)[i] as u32 == s[i] as u32 + 32,
        !(65 <= s[i] as u32 <= 90) ==> lower(s)[i] == s[i],
{
}

/// Among ASCII characters the blank and the five controls from tab to carriage
/// return are white space, and nothing else is.
pub proof fn ascii_white_space(c: char)
    requires
        (c as u32) < 128,
    ensures
        white(c) <==> c as u32 == 32 || 9 <= c as u32 <= 13,
{
}

/// Trimming takes away white space at the start.
proof fn lemma_trim_start_at(s: Seq<char>) -> (i: int)
    ensures
        0 <= i <= s.len(),
        trim_start(s) == s.skip(i),
        forall|k: int| 0 <= k < i ==> white(#[trigger] s[k]),
        i < s.len() ==> !white(s[i]),
    decreases s.len(),
{
    if s.len() > 0 && white(s[0]) {
        let t = s.skip(1);
        let j = lemma_trim_start_at(t);
        assert(t.skip(j) =~= s.skip(j + 1));
        assert forall|k: int| 0 <= k < j + 1 implies white(#[trigger] s[k]) by {
            if k > 0 {
                assert(t[k - 1] == s[k]);
            }
        }
        if j < t.len() {
            assert(t[j] == s[j + 1]);
        }
        j + 1
    } else {
        assert(s.skip(0) =~= s);
        0
    }
}

/// Trimming takes away white space at the end.
proof fn lemma_trim_end_at(s: Seq<char>) -> (j: int)
    ensures
        0 <= j <= s.len(),
        trim_end(s) == s.take(j),
        forall|k: int| j <= k < s.len() ==> white(#[trigger] s[k]),
        j > 0 ==> !white(s[j - 1]),
    decreases s.len(),
{
    if s.len() > 0 && white(s.last()) {
        let t = s.drop_last();
        let j = lemma_trim_end_at(t);
        assert(t.take(j) =~= s.take(j));
        assert forall|k: int| j <= k < s.len() implies white(#[trigger] s[k]) by {
            if k < s.len() - 1 {
                assert(t[k] == s[k]);
            }
        }
        if j > 0 {
            assert(t[j - 1] == s[j - 1]);
        }
        j
    } else {
        assert(s.take(s.len() as int) =~= s);
        s.len() as int
    }
}

/// Trimming takes away white space at both ends, all of it, and nothing else:
/// what is left is a part of the text with nothing but white space around it.
pub proof fn trimming_takes_white_space_only(s: Seq<char>) -> (r: (int, int))
    ensures
        0 <= r.0 <= r.1 <= s.len(),
        trimmed(s) == s.subrange(r.0, r.1),
        forall|k: int| 0 <= k < r.0 || r.1 <= k < s.len() ==> white(#[trigger] s[k]),
        r.0 < r.1 ==> !white(s[r.0]) && !white(s[r.1 - 1]),
{
    let i = lemma_trim_start_at(s);
    let t = s.skip(i);
    let j = lemma_trim_end_at(t);
    assert(t.take(j) =~= s.subrange(i, i + j));
    assert forall|k: int| 0 <= k < i || i + j <= k < s.len() implies white(#[trigger] s[k]) by {
        if k >= i + j {
            assert(t[k - i] == s[k]);
        }
    }
    if j > 0 {
        assert(t[0] == s[i]);
        assert(t[j - 1] == s[i + j - 1]);
    }
    (i, i + j)
}

/// Stripping takes away a character at the end, however often it stands there,
/// and nothing else.
pub proof fn stripping_takes_one_character_only(s: Seq<char>, c: char) -> (j: int)
    ensures
        0 <= j <= s.len(),
        strip_end(s, c) == s.take(j),
        forall|k: int| j <= k < s.len() ==> #[trigger] s[k] == c,
        j > 0 ==> s[j - 1] != c,
    decreases s.len(),
{
    if s.len() > 0 && s.last() == c {
        let t = s.drop_last();
        let j = stripping_takes_one_character_only(t, c);
        assert(t.take(j) =~= s.take(j));
        assert forall|k: int| j <= k < s.len() implies #[trigger] s[k] == c by {
            if k < s.len() - 1 {
                assert(t[k] == s[k]);
            }
        }
        if j > 0 {
            assert(t[j - 1] == s[j - 1]);
        }
        j
    } else {
        assert(s.take(s.len() as int) =~= s);
        s.len() as int
    }
}

/// A text without a separator is one piece.
proof fn lemma_one_piece(s: Seq<char>, sep: spec_fn(char) -> bool)
    requires
        forall|k: int| 0 <= k < s.len() ==> !sep(#[trigger] s[k]),
    ensures
        pieces(s, sep) == seq![s],
    decreases s.len(),
{
    if s.len() > 0 {
        let d = s.drop_last();
        assert forall|k: int| 0 <= k < d.len() implies !sep(#[trigger] d[k]) by {
            assert(d[k] == s[k]);
        }
        lemma_one_piece(d, sep);
        assert(!sep(s[s.len() - 1]));
        assert(d.push(s.last()) =~= s);
        assert(pieces(s, sep) =~= seq![s]);
    } else {
        assert(s =~= Seq::empty());
        assert(pieces(s, sep) =~= seq![s]);
    }
}

/// A separator cuts a text into the pieces before it and the pieces behind it.
proof fn lemma_cut(a: Seq<char>, x: char, b: Seq<char>, sep: spec_fn(char) -> bool)
    requires
        sep(x),
    ensures
        pieces(a.push(x) + b, sep) == pieces(a, sep) + pieces(b, sep),
    decreases b.len(),
{
    let s = a.push(x) + b;
    lemma_pieces_nonempty(a, sep);
    if b.len() == 0 {
        assert(s =~= a.push(x));
        assert(s.drop_last() =~= a);
        assert(s.last() == x);
        assert(b =~= Seq::empty());
        assert(pieces(s, sep) =~= pieces(a, sep) + pieces(b, sep));
    } else {
        let d = b.drop_last();
        lemma_cut(a, x, d, sep);
        lemma_pieces_nonempty(d, sep);
        assert(s.drop_last() =~= a.push(x) + d);
        assert(s.last() == b.last());
        let before = pieces(a, sep) + pieces(d, sep);
        assert(before.last() == pieces(d, sep).last());
        assert(pieces(s, sep) =~= pieces(a, sep) + pieces(b, sep));
    }
}

/// Pieces lie between separators: a text without the separator is one piece,
/// and a separator parts the pieces before it from those behind it.
pub proof fn separators_part_the_pieces(a: Seq<char>, c: char, b: Seq<char>)
    ensures
        !a.contains(c) ==> split(a, c) == seq![a],
        split(a.push(c) + b, c) == split(a, c) + split(b, c),
{
    if !a.contains(c) {
        lemma_one_piece(a, only(c));
    }
    lemma_cut(a, c, b, only(c));
}

/// Words lie between white space: a text without white space is one word
/// unless it is empty, and white space parts the words before it from those
/// behind it.
pub proof fn white_space_parts_the_words(a: Seq<char>, x: char, b: Seq<char>)
    ensures
        words(Seq::empty()) == Seq::<Seq<char>>::empty(),
        a.len() > 0 && (forall|k: int| 0 <= k < a.len() ==> !white(#[trigger] a[k])) ==> words(a)
            == seq![a],
        white(x) ==> words(a.push(x) + b) == words(a) + words(b),
{
    let sep = |c: char| white(c);
    let full = |w: Seq<char>| w.len() > 0;
    let none = Seq::<char>::empty();
    reveal(Seq::filter);
    assert(pieces(none, sep) =~= seq![none]);
    let nothing = Seq::<Seq<char>>::empty();
    assert(nothing.push(none) =~= seq![none]);
    lemma_filter_push(nothing, none, full);
    assert(nothing.filter(full) =~= nothing);
    assert(words(none) =~= nothing);
    if a.len() > 0 && (forall|k: int| 0 <= k < a.len() ==> !white(#[trigger] a[k])) {
        lemma_one_piece(a, sep);
        lemma_filter_push(nothing, a, full);
        assert(nothing.push(a) =~= seq![a]);
        assert(words(a) =~= seq![a]);
    }
    if white(x) {
        lemma_cut(a, x, b, sep);
        Seq::filter_distributes_over_add(pieces(a, sep), pieces(b, sep), full);
    }
}

/// Lines end at line feeds: a text without one is one line unless it is empty,
/// and a line feed, together with a carriage return before it, parts a line
/// from the lines behind it.
pub proof fn line_feeds_part_the_lines(a: Seq<char>, b: Seq<char>)
    requires
        !a.contains('\n'),
    ensures
        lines(Seq::empty()) == Seq::<Seq<char>>::empty(),
        a.len() > 0 ==> lines(a) == seq![a],
        (a.len() == 0 || a.last() != '\r') ==> lines(a.push('\n') + b) == seq![a] + lines(b),
        lines(a.push('\r').push('\n') + b) == seq![a] + lines(b),
{
    let none = Seq::<char>::empty();
    lemma_one_piece(none, only('\n'));
    assert(lines(none) =~= Seq::empty());
    lemma_one_piece(a, only('\n'));
    if a.len() > 0 {
        assert(lines(a) =~= seq![a]);
    }
    lemma_pieces_nonempty(b, only('\n'));
    separators_part_the_pieces(a, '\n', b);
    let strip = |l: Seq<char>| strip_return(l);
    let p = split(a.push('\n') + b, '\n');
    assert(p.drop_last() =~= seq![a] + split(b, '\n').drop_last());
    assert(p.drop_last().map_values(strip) =~= seq![strip_return(a)] + split(
        b,
        '\n',
    ).drop_last().map_values(strip));
    assert(lines(a.push('\n') + b) =~= seq![strip_return(a)] + lines(b));
    let r = a.push('\r');
    assert(!r.contains('\n')) by {
        if r.contains('\n') {
            let k = choose|k: int| 0 <= k < r.len() && r[k] == '\n';
            assert(a[k] == '\n');
        }
    }
    lemma_one_piece(r, only('\n'));
    separators_part_the_pieces(r, '\n', b);
    let q = split(r.push('\n') + b, '\n');
    assert(q.drop_last() =~= seq![r] + split(b, '\n').drop_last());
    assert(q.drop_last().map_values(strip) =~= seq![strip_return(r)] + split(
        b,
        '\n',
    ).drop_last().map_values(strip));
    assert(strip_return(r) =~= a);
    assert(lines(r.push('\n') + b) =~= seq![a] + lines(b));
}

} // verus!
