//! Orders on text and other values, and a stable sort.

use vstd::prelude::*;

use crate::text::chars_of;
use crate::value::{views, Value};

verus! {

/// How one value stands to another.
#[derive(Debug, Clone, Copy, PartialEq, Eq, Structural)]
pub enum Rank {
    Less,
    Equal,
    Greater,
}

/// Whether `a` stands before `b` in the order of their code points, a proper
/// prefix before every longer text.
pub open spec fn text_less(a: Seq<char>, b: Seq<char>) -> bool
    decreases a.len(),
{
    if b.len() == 0 {
        false
    } else if a.len() == 0 {
        true
    } else if a[0] != b[0] {
        a[0] < b[0]
    } else {
        text_less(a.skip(1), b.skip(1))
    }
}

/// Whether `a` equals `b` or stands before it.
pub open spec fn text_le(a: Seq<char>, b: Seq<char>) -> bool {
    a == b || text_less(a, b)
}

/// Of two different texts exactly one stands before the other.
pub proof fn text_less_total(a: Seq<char>, b: Seq<char>)
    ensures
        !text_less(a, a),
        a != b ==> (text_less(a, b) <==> !text_less(b, a)),
    decreases a.len(),
{
    if a.len() > 0 {
        text_less_total(a.skip(1), if b.len() > 0 {
            b.skip(1)
        } else {
            b
        });
        if b.len() > 0 && a[0] == b[0] && a.skip(1) == b.skip(1) {
            assert(a =~= seq![a[0]] + a.skip(1));
            assert(b =~= seq![b[0]] + b.skip(1));
        }
    } else if b.len() == 0 {
        assert(a =~= b);
    }
}

/// The order of texts is transitive.
pub proof fn text_less_transitive(a: Seq<char>, b: Seq<char>, c: Seq<char>)
    requires
        text_less(a, b),
        text_less(b, c),
    ensures
        text_less(a, c),
    decreases a.len(),
{
    if a.len() > 0 && a[0] == b[0] && b[0] == c[0] {
        text_less_transitive(a.skip(1), b.skip(1), c.skip(1));
    }
}

/// Compares two strings by their code points.
pub fn compare_text(a: &str, b: &str) -> (r: Rank)
    ensures
        match r {
            Rank::Less => text_less(a@, b@),
            Rank::Equal => a@ == b@,
            Rank::Greater => text_less(b@, a@),
        },
{
    let x = chars_of(a);
    let y = chars_of(b);
    let mut i: usize = 0;
    proof {
        assert(x@.skip(0) =~= x@);
        assert(y@.skip(0) =~= y@);
    }
    while i < x.len() && i < y.len()
        invariant
            i <= x@.len(),
            i <= y@.len(),
            x@ == a@,
            y@ == b@,
            x@.take(i as int) == y@.take(i as int),
            text_less(x@, y@) == text_less(x@.skip(i as int), y@.skip(i as int)),
            text_less(y@, x@) == text_less(y@.skip(i as int), x@.skip(i as int)),
        decreases x@.len() - i,
    {
        let c: char = x[i];
        let d: char = y[i];
        if c < d {
            return Rank::Less;
        }
        if d < c {
            return Rank::Greater;
        }
        proof {
            assert(x@.skip(i as int).skip(1) =~= x@.skip(i + 1));
            assert(y@.skip(i as int).skip(1) =~= y@.skip(i + 1));
            assert(x@.take(i + 1) =~= x@.take(i as int).push(x@[i as int]));
            assert(y@.take(i + 1) =~= y@.take(i as int).push(y@[i as int]));
        }
        i += 1;
    }
    proof {
        assert(x@.take(x@.len() as int) =~= x@);
        assert(y@.take(y@.len() as int) =~= y@);
    }
    if x.len() == y.len() {
        Rank::Equal
    } else if x.len() < y.len() {
        Rank::Less
    } else {
        Rank::Greater
    }
}

/// Values with a total preorder on their views.
pub trait Ranked: View + Sized {
    /// Whether `a` stands no later than `b`.
    spec fn le(a: Self::V, b: Self::V) -> bool;

    proof fn le_total(a: Self::V, b: Self::V)
        ensures
            Self::le(a, b) || Self::le(b, a),
    ;

    proof fn le_transitive(a: Self::V, b: Self::V, c: Self::V)
        requires
            Self::le(a, b),
            Self::le(b, c),
        ensures
            Self::le(a, c),
    ;

    /// Whether `self` stands no later than `other`.
    fn at_most(&self, other: &Self) -> (r: bool)
        ensures
            r == Self::le(self@, other@),
    ;
}

/// The test for standing level with `x`.
pub open spec fn level<T: Ranked>(x: T::V) -> spec_fn(T::V) -> bool {
    |y: T::V| T::le(x, y) && T::le(y, x)
}

/// Whether a list is in order.
pub open spec fn sorted<T: Ranked>(s: Seq<T::V>) -> bool {
    forall|i: int, j: int| 0 <= i <= j < s.len() ==> T::le(#[trigger] s[i], #[trigger] s[j])
}

/// Whether `s` is `t` put in order: in order, with the same values, and with
/// those that stand level in the order in which `t` has them.
pub open spec fn sorts<T: Ranked>(s: Seq<T::V>, t: Seq<T::V>) -> bool {
    &&& sorted::<T>(s)
    &&& forall|x: T::V| #![trigger level::<T>(x)]
        s.filter(level::<T>(x)) == t.filter(level::<T>(x))
}

/// The list put in order, with what stands level in its old order.
pub open spec fn stable_sorted<T: Ranked>(t: Seq<T::V>) -> Seq<T::V> {
    choose|s: Seq<T::V>| sorts::<T>(s, t)
}

/// Filtering a list by its first value and the rest.
proof fn lemma_filter_first<A>(s: Seq<A>, keep: spec_fn(A) -> bool)
    requires
        s.len() > 0,
    ensures
        s.filter(keep) == (if keep(s[0]) {
            seq![s[0]] + s.skip(1).filter(keep)
        } else {
            s.skip(1).filter(keep)
        }),
{
    let head = seq![s[0]];
    assert(s =~= head + s.skip(1));
    Seq::filter_distributes_over_add(head, s.skip(1), keep);
    reveal(Seq::filter);
    assert(head.drop_last() =~= Seq::empty());
    assert(head.drop_last().filter(keep) =~= Seq::empty());
    if keep(s[0]) {
        assert(head.filter(keep) =~= head);
    } else {
        assert(head.filter(keep) =~= Seq::empty());
        assert(Seq::<A>::empty() + s.skip(1).filter(keep) =~= s.skip(1).filter(keep));
    }
}

/// A list can be put in order in one way only.
pub proof fn sorts_unique<T: Ranked>(s: Seq<T::V>, t: Seq<T::V>)
    requires
        sorted::<T>(s),
        sorted::<T>(t),
        forall|x: T::V| #![trigger level::<T>(x)]
            s.filter(level::<T>(x)) == t.filter(level::<T>(x)),
    ensures
        s == t,
    decreases s.len(),
{
    if s.len() == 0 {
        if t.len() > 0 {
            let keep = level::<T>(t[0]);
            T::le_total(t[0], t[0]);
            lemma_filter_first(t, keep);
            lemma_filter_none(s, keep);
            assert(t.filter(keep)[0] == t[0]);
        }
        assert(s =~= t);
    } else if t.len() == 0 {
        let keep = level::<T>(s[0]);
        T::le_total(s[0], s[0]);
        lemma_filter_first(s, keep);
        lemma_filter_none(t, keep);
        assert(s.filter(keep)[0] == s[0]);
    } else {
        let a = s[0];
        let b = t[0];
        T::le_total(a, a);
        T::le_total(b, b);
        let ka = level::<T>(a);
        let kb = level::<T>(b);
        lemma_filter_first(s, ka);
        lemma_filter_first(t, kb);
        assert(s.filter(ka)[0] == a);
        assert(t.filter(kb)[0] == b);
        assert(t.filter(ka).contains(a));
        assert(s.filter(kb).contains(b));
        lemma_filter_has(t, ka, a);
        lemma_filter_has(s, kb, b);
        let i = choose|i: int| 0 <= i < t.len() && t[i] == a;
        let j = choose|j: int| 0 <= j < s.len() && s[j] == b;
        assert(T::le(t[0], t[i]));
        assert(T::le(s[0], s[j]));
        assert(ka(b));
        lemma_filter_first(t, ka);
        assert(t.filter(ka)[0] == b);
        assert(a == b);
        let s1 = s.skip(1);
        let t1 = t.skip(1);
        assert forall|x: T::V| #![trigger level::<T>(x)]
            s1.filter(level::<T>(x)) == t1.filter(level::<T>(x)) by {
            let k = level::<T>(x);
            lemma_filter_first(s, k);
            lemma_filter_first(t, k);
            if k(a) {
                assert((seq![a] + s1.filter(k)).skip(1) =~= s1.filter(k));
                assert((seq![a] + t1.filter(k)).skip(1) =~= t1.filter(k));
            }
        }
        assert forall|x: int, y: int| 0 <= x <= y < s1.len() implies T::le(
            #[trigger] s1[x],
            #[trigger] s1[y],
        ) by {
            assert(s1[x] == s[x + 1] && s1[y] == s[y + 1]);
        }
        assert forall|x: int, y: int| 0 <= x <= y < t1.len() implies T::le(
            #[trigger] t1[x],
            #[trigger] t1[y],
        ) by {
            assert(t1[x] == t[x + 1] && t1[y] == t[y + 1]);
        }
        sorts_unique::<T>(s1, t1);
        assert(s =~= seq![a] + s1);
        assert(t =~= seq![b] + t1);
    }
}

/// Every list can be put in order.
pub proof fn lemma_stable_sorted<T: Ranked>(t: Seq<T::V>)
    ensures
        sorts::<T>(stable_sorted::<T>(t), t),
    decreases t.len(),
{
    if t.len() == 0 {
        assert(sorts::<T>(t, t));
    } else {
        let e = t[0];
        let rest = t.skip(1);
        lemma_stable_sorted::<T>(rest);
        let r = stable_sorted::<T>(rest);
        let pos = lemma_insert_place::<T>(r, e);
        lemma_insert_sorted::<T>(r, pos, e);
        let s = r.insert(pos, e);
        assert forall|x: T::V| #![trigger level::<T>(x)]
            s.filter(level::<T>(x)) == t.filter(level::<T>(x)) by {
            let none = Seq::<T::V>::empty();
            let keep = level::<T>(x);
            lemma_insert_level::<T>(none, r, pos, e, x);
            assert(none + s =~= s);
            assert(none.push(e) + r =~= seq![e] + r);
            assert(t =~= seq![e] + rest);
            Seq::filter_distributes_over_add(seq![e], r, keep);
            Seq::filter_distributes_over_add(seq![e], rest, keep);
        }
        assert(sorts::<T>(s, t));
    }
}

/// The first place whose value `e` stands no later than.
proof fn lemma_insert_place<T: Ranked>(s: Seq<T::V>, e: T::V) -> (pos: int)
    ensures
        0 <= pos <= s.len(),
        forall|k: int| 0 <= k < pos ==> !T::le(e, #[trigger] s[k]),
        pos < s.len() ==> T::le(e, s[pos]),
    decreases s.len(),
{
    if s.len() == 0 || T::le(e, s[0]) {
        0
    } else {
        let p = lemma_insert_place::<T>(s.skip(1), e);
        assert forall|k: int| 0 <= k < p + 1 implies !T::le(e, #[trigger] s[k]) by {
            if k > 0 {
                assert(s.skip(1)[k - 1] == s[k]);
            }
        }
        p + 1
    }
}

/// Puts a list in order and keeps the order of values that stand level.
pub fn sort<T: Ranked>(v: &mut Vec<T>)
    ensures
        views(final(v)@) == stable_sorted::<T>(views(old(v)@)),
        sorts::<T>(views(final(v)@), views(old(v)@)),
        final(v)@.len() == old(v)@.len(),
{
    let ghost orig = v@;
    let ghost all = views(v@);
    let mut out: Vec<T> = Vec::new();
    proof {
        assert(views(v@) + views(out@) =~= all);
    }
    let mut left: usize = v.len();
    while left > 0
        invariant
            left == v@.len(),
            v@.len() + out@.len() == orig.len(),
            all == views(orig),
            sorted::<T>(views(out@)),
            forall|x: T::V| #![trigger level::<T>(x)]
                (views(v@) + views(out@)).filter(level::<T>(x)) == all.filter(level::<T>(x)),
        decreases left,
    {
        let ghost front = v@;
        let ghost tail = out@;
        let item = v.pop();
        match item {
            None => {},
            Some(e) => {
                let ghost e_view = e@;
                let mut pos: usize = 0;
                while pos < out.len() && !e.at_most(&out[pos])
                    invariant
                        pos <= out@.len(),
                        out@ == tail,
                        e_view == e@,
                        forall|k: int| 0 <= k < pos ==> !T::le(e_view, #[trigger] views(tail)[k]),
                    decreases out@.len() - pos,
                {
                    pos += 1;
                }
                out.insert(pos, e);
                proof {
                    assert(views(front) =~= views(v@).push(e_view));
                    assert(views(out@) =~= views(tail).insert(pos as int, e_view));
                    lemma_insert_sorted::<T>(views(tail), pos as int, e_view);
                    assert forall|x: T::V| #![trigger level::<T>(x)]
                        (views(v@) + views(out@)).filter(level::<T>(x)) == all.filter(
                        level::<T>(x),
                    ) by {
                        lemma_insert_level::<T>(views(v@), views(tail), pos as int, e_view, x);
                    }
                }
            },
        }
        left -= 1;
    }
    proof {
        assert(views(v@) + views(out@) =~= views(out@));
        let r = views(out@);
        let c = stable_sorted::<T>(all);
        assert(sorts::<T>(r, all));
        assert(sorts::<T>(c, all));
        sorts_unique::<T>(r, c);
    }
    *v = out;
}

/// Putting `e` before the first value that it stands no later than keeps the order.
proof fn lemma_insert_sorted<T: Ranked>(s: Seq<T::V>, pos: int, e: T::V)
    requires
        sorted::<T>(s),
        0 <= pos <= s.len(),
        forall|k: int| 0 <= k < pos ==> !T::le(e, #[trigger] s[k]),
        pos < s.len() ==> T::le(e, s[pos]),
    ensures
        sorted::<T>(s.insert(pos, e)),
{
    let r = s.insert(pos, e);
    assert forall|i: int, j: int| 0 <= i <= j < r.len() implies T::le(
        #[trigger] r[i],
        #[trigger] r[j],
    ) by {
        T::le_total(e, e);
        if j < pos {
            assert(r[i] == s[i] && r[j] == s[j]);
        } else if i > pos {
            assert(r[i] == s[i - 1] && r[j] == s[j - 1]);
        } else if i == pos && j > pos {
            assert(r[j] == s[j - 1]);
            T::le_transitive(e, s[pos], s[j - 1]);
        } else if i < pos && j == pos {
            assert(r[i] == s[i]);
            T::le_total(e, s[i]);
        } else if i < pos && j > pos {
            assert(r[i] == s[i] && r[j] == s[j - 1]);
        }
    }
}

/// Moving the last value of `front` into `tail`, before the first value that
/// it stands no later than, keeps what stands level with `x` in its order.
proof fn lemma_insert_level<T: Ranked>(
    front: Seq<T::V>,
    tail: Seq<T::V>,
    pos: int,
    e: T::V,
    x: T::V,
)
    requires
        0 <= pos <= tail.len(),
        forall|k: int| 0 <= k < pos ==> !T::le(e, #[trigger] tail[k]),
    ensures
        (front + tail.insert(pos, e)).filter(level::<T>(x)) == (front.push(e) + tail).filter(
            level::<T>(x),
        ),
{
    let keep = level::<T>(x);
    let head = tail.take(pos);
    let rest = tail.skip(pos);
    assert(front + tail.insert(pos, e) =~= front + head + seq![e] + rest);
    assert(front.push(e) + tail =~= front + seq![e] + head + rest);
    Seq::filter_distributes_over_add(front + head + seq![e], rest, keep);
    Seq::filter_distributes_over_add(front + head, seq![e], keep);
    Seq::filter_distributes_over_add(front, head, keep);
    Seq::filter_distributes_over_add(front + seq![e] + head, rest, keep);
    Seq::filter_distributes_over_add(front + seq![e], head, keep);
    Seq::filter_distributes_over_add(front, seq![e], keep);
    if keep(e) {
        assert forall|k: int| 0 <= k < head.len() implies !keep(#[trigger] head[k]) by {
            assert(head[k] == tail[k]);
            if keep(head[k]) {
                T::le_transitive(e, x, head[k]);
            }
        }
        lemma_filter_none(head, keep);
        assert(head.filter(keep) =~= Seq::empty());
        assert(front.filter(keep) + head.filter(keep) + seq![e].filter(keep) =~= front.filter(keep)
            + seq![e].filter(keep) + head.filter(keep));
    } else {
        lemma_filter_none(seq![e], keep);
        assert(front.filter(keep) + head.filter(keep) + seq![e].filter(keep) =~= front.filter(keep)
            + seq![e].filter(keep) + head.filter(keep));
    }
}

/// Filtering a list of which nothing is kept gives nothing.
pub proof fn lemma_filter_none<A>(s: Seq<A>, keep: spec_fn(A) -> bool)
    requires
        forall|k: int| 0 <= k < s.len() ==> !keep(#[trigger] s[k]),
    ensures
        s.filter(keep) == Seq::<A>::empty(),
    decreases s.len(),
{
    reveal(Seq::filter);
    if s.len() > 0 {
        assert(!keep(s[s.len() - 1]));
        lemma_filter_none(s.drop_last(), keep);
    }
}

impl Ranked for String {
    open spec fn le(a: Seq<char>, b: Seq<char>) -> bool {
        text_le(a, b)
    }

    proof fn le_total(a: Seq<char>, b: Seq<char>) {
        text_less_total(a, b);
    }

    proof fn le_transitive(a: Seq<char>, b: Seq<char>, c: Seq<char>) {
        if a != b && b != c {
            text_less_transitive(a, b, c);
        }
    }

    fn at_most(&self, other: &Self) -> (r: bool) {
        proof {
            text_less_total(self@, other@);
        }
        match compare_text(self.as_str(), other.as_str()) {
            Rank::Greater => false,
            _ => true,
        }
    }
}

impl Ranked for u32 {
    open spec fn le(a: u32, b: u32) -> bool {
        a <= b
    }

    proof fn le_total(a: u32, b: u32) {
    }

    proof fn le_transitive(a: u32, b: u32, c: u32) {
    }

    fn at_most(&self, other: &Self) -> (r: bool) {
        *self <= *other
    }
}

/// Values with a total order: what stands level is the same.
pub trait Ordered: Ranked + Value {
    proof fn le_antisymmetric(a: Self::V, b: Self::V)
        requires
            Self::le(a, b),
            Self::le(b, a),
        ensures
            a == b,
    ;
}

impl Ordered for String {
    proof fn le_antisymmetric(a: Seq<char>, b: Seq<char>) {
        text_less_total(a, b);
    }
}

impl Ordered for u32 {
    proof fn le_antisymmetric(a: u32, b: u32) {
    }
}

impl Ordered for crate::net::Ipv4Addr {
    proof fn le_antisymmetric(a: crate::net::Ipv4Addr, b: crate::net::Ipv4Addr) {
    }
}

/// Whether a list is in order and has nothing twice.
pub open spec fn strictly_sorted<T: Ranked>(s: Seq<T::V>) -> bool {
    forall|i: int, j: int|
        0 <= i < j < s.len() ==> T::le(#[trigger] s[i], #[trigger] s[j]) && s[i] != s[j]
}

/// Whether `s` lists what occurs in `t`, in order and once each.
pub open spec fn distinct_of<T: Ranked>(s: Seq<T::V>, t: Seq<T::V>) -> bool {
    &&& strictly_sorted::<T>(s)
    &&& forall|x: T::V| #[trigger] s.contains(x) <==> t.contains(x)
}

/// What occurs in `t`, in order and once each.
pub open spec fn sorted_distinct<T: Ranked>(t: Seq<T::V>) -> Seq<T::V> {
    choose|s: Seq<T::V>| distinct_of::<T>(s, t)
}

/// A list put in order has the values that it had.
pub proof fn lemma_sorts_contains<T: Ranked>(s: Seq<T::V>, t: Seq<T::V>, x: T::V)
    requires
        sorts::<T>(s, t),
    ensures
        s.contains(x) <==> t.contains(x),
{
    let keep = level::<T>(x);
    T::le_total(x, x);
    lemma_filter_has(s, keep, x);
    lemma_filter_has(t, keep, x);
}

/// Filtering keeps exactly what is to be kept.
pub proof fn lemma_filter_has<A>(s: Seq<A>, keep: spec_fn(A) -> bool, x: A)
    ensures
        s.filter(keep).contains(x) <==> s.contains(x) && keep(x),
    decreases s.len(),
{
    reveal(Seq::filter);
    if s.len() > 0 {
        let d = s.drop_last();
        let l = s.last();
        lemma_filter_has(d, keep, x);
        if d.contains(x) {
            let i = choose|i: int| 0 <= i < d.len() && d[i] == x;
            assert(s[i] == x);
        }
        if s.contains(x) && !d.contains(x) {
            let i = choose|i: int| 0 <= i < s.len() && s[i] == x;
            if i < s.len() - 1 {
                assert(d[i] == x);
            }
        }
        assert(s[s.len() - 1] == l);
        if keep(l) {
            let f = d.filter(keep);
            assert(f.push(l)[f.len() as int] == l);
            if f.contains(x) {
                let i = choose|i: int| 0 <= i < f.len() && f[i] == x;
                assert(f.push(l)[i] == x);
            }
            if f.push(l).contains(x) && x != l {
                let i = choose|i: int| 0 <= i < f.push(l).len() && f.push(l)[i] == x;
                assert(f[i] == x);
            }
        }
    }
}

/// One content has one strictly sorted list.
pub proof fn distinct_of_unique<T: Ordered>(s: Seq<T::V>, t: Seq<T::V>)
    requires
        strictly_sorted::<T>(s),
        strictly_sorted::<T>(t),
        forall|x: T::V| #[trigger] s.contains(x) <==> t.contains(x),
    ensures
        s == t,
    decreases s.len(),
{
    if s.len() == 0 {
        if t.len() > 0 {
            assert(t.contains(t[0]));
            assert(s.contains(t[0]));
        }
        assert(s =~= t);
    } else if t.len() == 0 {
        assert(s.contains(s[0]));
        assert(t.contains(s[0]));
    } else {
        let n = s.len() - 1;
        let m = t.len() - 1;
        assert(s.contains(s[n]));
        assert(t.contains(t[m]));
        assert(s.contains(t[m]));
        let p = choose|p: int| 0 <= p < t.len() && t[p] == s[n];
        let q = choose|q: int| 0 <= q < s.len() && s[q] == t[m];
        if s[n] != t[m] {
            assert(T::le(t[p], t[m]));
            assert(T::le(s[q], s[n]));
            T::le_antisymmetric(s[n], t[m]);
        }
        let s1 = s.drop_last();
        let t1 = t.drop_last();
        assert forall|x: T::V| #[trigger] s1.contains(x) <==> t1.contains(x) by {
            if s1.contains(x) {
                let i = choose|i: int| 0 <= i < s1.len() && s1[i] == x;
                assert(s[i] == x);
                assert(s.contains(x));
                let j = choose|j: int| 0 <= j < t.len() && t[j] == x;
                assert(s[i] != s[n]);
                assert(t1[j] == x);
            }
            if t1.contains(x) {
                let j = choose|j: int| 0 <= j < t1.len() && t1[j] == x;
                assert(t[j] == x);
                assert(t.contains(x));
                assert(s.contains(x));
                let i = choose|i: int| 0 <= i < s.len() && s[i] == x;
                assert(t[j] != t[m]);
                assert(s1[i] == x);
            }
        }
        distinct_of_unique::<T>(s1, t1);
        assert(s =~= s1.push(s[n]));
        assert(t =~= t1.push(t[m]));
    }
}

/// What occurs in a list can be listed in order and once each.
pub proof fn lemma_sorted_distinct<T: Ordered>(t: Seq<T::V>)
    ensures
        distinct_of::<T>(sorted_distinct::<T>(t), t),
    decreases t.len(),
{
    if t.len() == 0 {
        assert(distinct_of::<T>(t, t));
    } else {
        let d = t.drop_last();
        let e = t.last();
        lemma_sorted_distinct::<T>(d);
        let r = sorted_distinct::<T>(d);
        assert forall|x: T::V| #[trigger] t.contains(x) <==> d.contains(x) || x == e by {
            if d.contains(x) {
                let i = choose|i: int| 0 <= i < d.len() && d[i] == x;
                assert(t[i] == x);
            }
            if t.contains(x) && x != e {
                let i = choose|i: int| 0 <= i < t.len() && t[i] == x;
                assert(d[i] == x);
            }
            assert(t[t.len() - 1] == e);
        }
        if r.contains(e) {
            assert(d.contains(e));
            assert(distinct_of::<T>(r, t));
        } else {
            let pos = lemma_insert_place::<T>(r, e);
            let s = r.insert(pos, e);
            assert(sorted::<T>(r)) by {
                assert forall|i: int, j: int| 0 <= i <= j < r.len() implies T::le(
                    #[trigger] r[i],
                    #[trigger] r[j],
                ) by {
                    T::le_total(r[i], r[i]);
                }
            }
            lemma_insert_sorted::<T>(r, pos, e);
            assert forall|i: int, j: int| 0 <= i < j < s.len() implies T::le(
                #[trigger] s[i],
                #[trigger] s[j],
            ) && s[i] != s[j] by {
                if i == pos {
                    assert(s[j] == r[j - 1]);
                    assert(r.contains(r[j - 1]));
                } else if j == pos {
                    assert(s[i] == r[i]);
                    assert(r.contains(r[i]));
                } else {
                    let a = if i < pos {
                        i
                    } else {
                        i - 1
                    };
                    let b = if j < pos {
                        j
                    } else {
                        j - 1
                    };
                    assert(s[i] == r[a] && s[j] == r[b]);
                    assert(r[a] != r[b]);
                }
            }
            assert forall|x: T::V| #[trigger] s.contains(x) <==> t.contains(x) by {
                if s.contains(x) {
                    let i = choose|i: int| 0 <= i < s.len() && s[i] == x;
                    if i < pos {
                        assert(r[i] == x);
                    } else if i > pos {
                        assert(r[i - 1] == x);
                    }
                    if i != pos {
                        assert(r.contains(x));
                    }
                }
                if r.contains(x) {
                    let i = choose|i: int| 0 <= i < r.len() && r[i] == x;
                    assert(s[if i < pos {
                        i
                    } else {
                        i + 1
                    }] == x);
                }
                assert(s[pos] == e);
            }
            assert(distinct_of::<T>(s, t));
        }
    }
}

/// Puts a list in order and takes repetitions out.
pub fn sort_distinct<T: Ordered>(v: &mut Vec<T>)
    ensures
        distinct_of::<T>(views(final(v)@), views(old(v)@)),
        views(final(v)@) == sorted_distinct::<T>(views(old(v)@)),
{
    let ghost orig = views(v@);
    sort(v);
    let ghost full = views(v@);
    proof {
        assert forall|x: T::V| #[trigger] full.contains(x) <==> orig.contains(x) by {
            lemma_sorts_contains::<T>(full, orig, x);
        }
    }
    let mut out: Vec<T> = Vec::new();
    let mut i: usize = 0;
    proof {
        assert(views(out@) =~= Seq::empty());
    }
    while i < v.len()
        invariant
            i <= v@.len(),
            full == views(v@),
            sorted::<T>(full),
            strictly_sorted::<T>(views(out@)),
            forall|k: int| 0 <= k < i ==> views(out@).contains(#[trigger] full[k]),
            forall|k: int| 0 <= k < out@.len() ==> full.contains(#[trigger] views(out@)[k]),
            out@.len() == 0 ==> i == 0,
            out@.len() > 0 ==> i > 0 && views(out@).last() == full[i - 1],
        decreases v@.len() - i,
    {
        let ghost before = views(out@);
        let ghost x = full[i as int];
        let m: usize = out.len();
        if m > 0 && out[m - 1].same(&v[i]) {
            proof {
                assert(before[m - 1] == x);
            }
        } else {
            out.push(v[i].copied());
            proof {
                let after = views(out@);
                assert(after =~= before.push(x));
                assert forall|a: int, b: int| 0 <= a < b < after.len() implies T::le(
                    #[trigger] after[a],
                    #[trigger] after[b],
                ) && after[a] != after[b] by {
                    if b < before.len() {
                        assert(after[a] == before[a] && after[b] == before[b]);
                    } else {
                        assert(after[a] == before[a]);
                        let l = before[m - 1];
                        assert(T::le(full[i - 1], full[i as int]));
                        if a < m - 1 {
                            assert(T::le(before[a], before[m - 1]));
                            T::le_transitive(before[a], l, x);
                            if before[a] == x {
                                T::le_antisymmetric(before[a], l);
                            }
                        }
                    }
                }
                assert forall|k: int| 0 <= k < i + 1 implies after.contains(#[trigger] full[k]) by {
                    if k < i {
                        assert(before.contains(full[k]));
                        let j = choose|j: int| 0 <= j < before.len() && before[j] == full[k];
                        assert(after[j] == full[k]);
                    } else {
                        assert(after[m as int] == x);
                    }
                }
                assert forall|k: int| 0 <= k < after.len() implies full.contains(
                    #[trigger] after[k],
                ) by {
                    if k < m {
                        assert(after[k] == before[k]);
                    } else {
                        assert(full[i as int] == x);
                    }
                }
            }
        }
        i += 1;
    }
    proof {
        let s = views(out@);
        assert forall|x: T::V| #[trigger] s.contains(x) <==> orig.contains(x) by {
            if s.contains(x) {
                let k = choose|k: int| 0 <= k < s.len() && s[k] == x;
                assert(full.contains(s[k]));
            }
            if full.contains(x) {
                let k = choose|k: int| 0 <= k < full.len() && full[k] == x;
                assert(s.contains(full[k]));
            }
        }
        let d = sorted_distinct::<T>(orig);
        assert(distinct_of::<T>(s, orig));
        assert(distinct_of::<T>(d, orig));
        assert forall|x: T::V| #[trigger] s.contains(x) <==> d.contains(x) by {
            assert(d.contains(x) <==> orig.contains(x));
        }
        distinct_of_unique::<T>(s, d);
    }
    *v = out;
}

/// Whether a pair of texts stands before another: by the first, then by the
/// second.
pub open spec fn pair_less(a: (Seq<char>, Seq<char>), b: (Seq<char>, Seq<char>)) -> bool {
    text_less(a.0, b.0) || (a.0 == b.0 && text_less(a.1, b.1))
}

/// Whether a list of pairs stands before another, a proper prefix before every
/// longer list.
pub open spec fn pairs_less(
    a: Seq<(Seq<char>, Seq<char>)>,
    b: Seq<(Seq<char>, Seq<char>)>,
) -> bool
    decreases a.len(),
{
    if b.len() == 0 {
        false
    } else if a.len() == 0 {
        true
    } else if a[0] != b[0] {
        pair_less(a[0], b[0])
    } else {
        pairs_less(a.skip(1), b.skip(1))
    }
}

/// Of two different pairs exactly one stands before the other.
proof fn lemma_pair_total(a: (Seq<char>, Seq<char>), b: (Seq<char>, Seq<char>))
    ensures
        !pair_less(a, a),
        a != b ==> (pair_less(a, b) <==> !pair_less(b, a)),
{
    text_less_total(a.0, b.0);
    text_less_total(a.1, b.1);
    text_less_total(b.0, a.0);
    text_less_total(b.1, a.1);
}

/// The order of pairs is transitive.
proof fn lemma_pair_transitive(
    a: (Seq<char>, Seq<char>),
    b: (Seq<char>, Seq<char>),
    c: (Seq<char>, Seq<char>),
)
    requires
        pair_less(a, b),
        pair_less(b, c),
    ensures
        pair_less(a, c),
{
    if text_less(a.0, b.0) && text_less(b.0, c.0) {
        text_less_transitive(a.0, b.0, c.0);
    }
    if text_less(a.1, b.1) && text_less(b.1, c.1) {
        text_less_transitive(a.1, b.1, c.1);
    }
}

/// Of two different lists of pairs exactly one stands before the other.
pub proof fn pairs_less_total(a: Seq<(Seq<char>, Seq<char>)>, b: Seq<(Seq<char>, Seq<char>)>)
    ensures
        !pairs_less(a, a),
        a != b ==> (pairs_less(a, b) <==> !pairs_less(b, a)),
    decreases a.len(),
{
    if a.len() > 0 {
        pairs_less_total(a.skip(1), if b.len() > 0 {
            b.skip(1)
        } else {
            b
        });
        if b.len() > 0 {
            lemma_pair_total(a[0], b[0]);
            if a[0] == b[0] && a.skip(1) == b.skip(1) {
                assert(a =~= seq![a[0]] + a.skip(1));
                assert(b =~= seq![b[0]] + b.skip(1));
            }
        }
    } else if b.len() == 0 {
        assert(a =~= b);
    }
}

/// The order of lists of pairs is transitive.
pub proof fn pairs_less_transitive(
    a: Seq<(Seq<char>, Seq<char>)>,
    b: Seq<(Seq<char>, Seq<char>)>,
    c: Seq<(Seq<char>, Seq<char>)>,
)
    requires
        pairs_less(a, b),
        pairs_less(b, c),
    ensures
        pairs_less(a, c),
    decreases a.len(),
{
    if a.len() > 0 {
        if a[0] == b[0] && b[0] == c[0] {
            pairs_less_transitive(a.skip(1), b.skip(1), c.skip(1));
        } else if a[0] != b[0] && b[0] != c[0] {
            lemma_pair_transitive(a[0], b[0], c[0]);
            lemma_pair_total(a[0], c[0]);
        }
    }
}

/// The view of a list of pairs of strings.
pub open spec fn pair_views(s: Seq<(String, String)>) -> Seq<(Seq<char>, Seq<char>)> {
    s.map_values(|p: (String, String)| (p.0@, p.1@))
}

/// Compares two lists of pairs of strings.
pub fn compare_pairs(a: &[(String, String)], b: &[(String, String)]) -> (r: Rank)
    ensures
        match r {
            Rank::Less => pairs_less(pair_views(a@), pair_views(b@)),
            Rank::Equal => pair_views(a@) == pair_views(b@),
            Rank::Greater => pairs_less(pair_views(b@), pair_views(a@)),
        },
{
    let ghost x = pair_views(a@);
    let ghost y = pair_views(b@);
    let mut i: usize = 0;
    proof {
        assert(x.skip(0) =~= x);
        assert(y.skip(0) =~= y);
    }
    while i < a.len() && i < b.len()
        invariant
            i <= a@.len(),
            i <= b@.len(),
            x == pair_views(a@),
            y == pair_views(b@),
            x.take(i as int) == y.take(i as int),
            pairs_less(x, y) == pairs_less(x.skip(i as int), y.skip(i as int)),
            pairs_less(y, x) == pairs_less(y.skip(i as int), x.skip(i as int)),
        decreases a@.len() - i,
    {
        proof {
            assert(x.skip(i as int)[0] == (a@[i as int].0@, a@[i as int].1@));
            assert(y.skip(i as int)[0] == (b@[i as int].0@, b@[i as int].1@));
            lemma_pair_total(x[i as int], y[i as int]);
            text_less_total(x[i as int].0, y[i as int].0);
            text_less_total(x[i as int].1, y[i as int].1);
        }
        match compare_text(a[i].0.as_str(), b[i].0.as_str()) {
            Rank::Less => {
                return Rank::Less;
            },
            Rank::Greater => {
                return Rank::Greater;
            },
            Rank::Equal => {},
        }
        match compare_text(a[i].1.as_str(), b[i].1.as_str()) {
            Rank::Less => {
                return Rank::Less;
            },
            Rank::Greater => {
                return Rank::Greater;
            },
            Rank::Equal => {},
        }
        proof {
            assert(x.skip(i as int).skip(1) =~= x.skip(i + 1));
            assert(y.skip(i as int).skip(1) =~= y.skip(i + 1));
            assert(x.take(i + 1) =~= x.take(i as int).push(x[i as int]));
            assert(y.take(i + 1) =~= y.take(i as int).push(y[i as int]));
        }
        i += 1;
    }
    proof {
        assert(x.take(x.len() as int) =~= x);
        assert(y.take(y.len() as int) =~= y);
    }
    if a.len() == b.len() {
        Rank::Equal
    } else if a.len() < b.len() {
        Rank::Less
    } else {
        Rank::Greater
    }
}

/// A value taken out of a list is missing there once.
proof fn lemma_taken<A>(s: Seq<A>, i: int)
    requires
        0 <= i < s.len(),
    ensures
        s.to_multiset() == s.remove(i).to_multiset().insert(s[i]),
{
    broadcast use vstd::seq_lib::group_to_multiset_ensures;

    assert(s.contains(s[i]));
    assert(s.to_multiset() =~= s.to_multiset().remove(s[i]).insert(s[i]));
}

/// Putting a list in order neither adds nor loses anything: each value occurs
/// as often as before, and of two neighbours the first stands no later.
pub proof fn sorting_keeps_everything<T: Ranked>(t: Seq<T::V>)
    ensures
        stable_sorted::<T>(t).to_multiset() == t.to_multiset(),
        stable_sorted::<T>(t).len() == t.len(),
        forall|i: int|
            0 < i < t.len() ==> T::le(
                stable_sorted::<T>(t)[i - 1],
                #[trigger] stable_sorted::<T>(t)[i],
            ),
    decreases t.len(),
{
    broadcast use vstd::seq_lib::group_to_multiset_ensures;

    lemma_stable_sorted::<T>(t);
    let s = stable_sorted::<T>(t);
    if t.len() == 0 {
        assert(sorted::<T>(t));
        sorts_unique::<T>(s, t);
    } else {
        let e = t[0];
        let rest = t.skip(1);
        sorting_keeps_everything::<T>(rest);
        lemma_stable_sorted::<T>(rest);
        let r = stable_sorted::<T>(rest);
        let pos = lemma_insert_place::<T>(r, e);
        lemma_insert_sorted::<T>(r, pos, e);
        let u = r.insert(pos, e);
        assert forall|x: T::V| #![trigger level::<T>(x)]
            u.filter(level::<T>(x)) == s.filter(level::<T>(x)) by {
            let none = Seq::<T::V>::empty();
            let keep = level::<T>(x);
            lemma_insert_level::<T>(none, r, pos, e, x);
            assert(none + u =~= u);
            assert(none.push(e) + r =~= seq![e] + r);
            assert(t =~= seq![e] + rest);
            Seq::filter_distributes_over_add(seq![e], r, keep);
            Seq::filter_distributes_over_add(seq![e], rest, keep);
        }
        sorts_unique::<T>(u, s);
        lemma_taken(u, pos);
        lemma_taken(t, 0);
        assert(u.remove(pos) =~= r);
        assert(t.remove(0) =~= rest);
    }
}

/// The order of texts is that of the first character in which they differ; a
/// text stands before everything that it begins.
pub proof fn first_difference_decides(
    common: Seq<char>,
    x: char,
    y: char,
    a: Seq<char>,
    b: Seq<char>,
)
    requires
        x != y,
    ensures
        text_less(common.push(x) + a, common.push(y) + b) <==> (x as u32) < (y as u32),
        text_less(common, common.push(x) + a),
        !text_less(common.push(x) + a, common),
    decreases common.len(),
{
    let s = common.push(x) + a;
    let t = common.push(y) + b;
    if common.len() > 0 {
        let rest = common.skip(1);
        first_difference_decides(rest, x, y, a, b);
        assert(s.skip(1) =~= rest.push(x) + a);
        assert(t.skip(1) =~= rest.push(y) + b);
        assert(s[0] == common[0] && t[0] == common[0]);
    } else {
        assert(s[0] == x && t[0] == y);
    }
}

/// What occurs in a list is listed in order and once each: a later value never
/// stands before an earlier one, and nothing is added or lost.
pub proof fn distinct_keeps_every_value<T: Ordered>(t: Seq<T::V>, x: T::V)
    ensures
        sorted_distinct::<T>(t).contains(x) <==> t.contains(x),
        sorted_distinct::<T>(t).no_duplicates(),
        forall|i: int|
            0 < i < sorted_distinct::<T>(t).len() ==> !T::le(
                #[trigger] sorted_distinct::<T>(t)[i],
                sorted_distinct::<T>(t)[i - 1],
            ),
{
    lemma_sorted_distinct::<T>(t);
    let s = sorted_distinct::<T>(t);
    assert forall|i: int| 0 < i < s.len() implies !T::le(#[trigger] s[i], s[i - 1]) by {
        assert(T::le(s[i - 1], s[i]) && s[i - 1] != s[i]);
        if T::le(s[i], s[i - 1]) {
            T::le_antisymmetric(s[i - 1], s[i]);
        }
    }
}

/// What two lists one behind the other have.
pub proof fn lemma_sum_has<A>(s: Seq<A>, t: Seq<A>, x: A)
    ensures
        (s + t).contains(x) <==> s.contains(x) || t.contains(x),
{
    if s.contains(x) {
        let i = choose|i: int| 0 <= i < s.len() && s[i] == x;
        assert((s + t)[i] == x);
    }
    if t.contains(x) {
        let i = choose|i: int| 0 <= i < t.len() && t[i] == x;
        assert((s + t)[s.len() + i] == x);
    }
}

} // verus!
