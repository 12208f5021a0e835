//! Maps with text keys.
//!
//! The entries are kept in the order of their keys, so that one content has one
//! listing.

use vstd::prelude::*;

use crate::order::{compare_text, text_less, text_less_total, text_less_transitive, Rank};

verus! {

/// A map from text to values, listed in the order of its keys.
#[derive(Debug, PartialEq, Eq)]
pub struct TextMap<T> {
    entries: Vec<(String, T)>,
}

/// Whether the keys of a listing rise strictly.
pub open spec fn rising<A>(s: Seq<(Seq<char>, A)>) -> bool {
    forall|i: int, j: int|
        0 <= i < j < s.len() ==> text_less((#[trigger] s[i]).0, (#[trigger] s[j]).0)
}

/// Whether a listing has an entry for `key`.
pub open spec fn listed<A>(s: Seq<(Seq<char>, A)>, key: Seq<char>) -> bool {
    exists|i: int| 0 <= i < s.len() && (#[trigger] s[i]).0 == key
}

/// Where a listing has its entry for `key`.
pub open spec fn place<A>(s: Seq<(Seq<char>, A)>, key: Seq<char>) -> int {
    choose|i: int| 0 <= i < s.len() && (#[trigger] s[i]).0 == key
}

/// The map that a listing stands for.
pub open spec fn map_of<A>(s: Seq<(Seq<char>, A)>) -> Map<Seq<char>, A> {
    Map::new(|k: Seq<char>| listed(s, k), |k: Seq<char>| s[place(s, k)].1)
}

/// The entries of a map in the order of their keys.
pub open spec fn ordered_pairs<A>(m: Map<Seq<char>, A>) -> Seq<(Seq<char>, A)> {
    choose|s: Seq<(Seq<char>, A)>| rising(s) && map_of(s) == m
}

/// In a rising listing a key stands at one place only.
pub proof fn lemma_place<A>(s: Seq<(Seq<char>, A)>, i: int)
    requires
        rising(s),
        0 <= i < s.len(),
    ensures
        listed(s, s[i].0),
        place(s, s[i].0) == i,
        map_of(s).contains_key(s[i].0),
        map_of(s)[s[i].0] == s[i].1,
{
    let key = s[i].0;
    assert(s[i].0 == key);
    let p = place(s, key);
    assert(0 <= p < s.len() && s[p].0 == key);
    text_less_total(key, key);
}

/// A listing stands for a finite map.
pub proof fn lemma_map_finite<A>(s: Seq<(Seq<char>, A)>)
    ensures
        map_of(s).dom().finite(),
{
    let keys = s.map_values(|p: (Seq<char>, A)| p.0);
    assert forall|k: Seq<char>| #[trigger] map_of(s).dom().contains(k) implies keys.to_set().contains(
        k,
    ) by {
        assert(keys[place(s, k)] == k);
        assert(keys.contains(k));
    }
    vstd::seq_lib::seq_to_set_is_finite(keys);
    vstd::set_lib::lemma_set_subset_finite(keys.to_set(), map_of(s).dom());
}

/// A content has one rising listing only.
pub proof fn lemma_listing_unique<A>(s: Seq<(Seq<char>, A)>, t: Seq<(Seq<char>, A)>)
    requires
        rising(s),
        rising(t),
        map_of(s) == map_of(t),
    ensures
        s == t,
    decreases s.len(),
{
    if s.len() == 0 {
        if t.len() > 0 {
            lemma_place(t, 0);
            assert(map_of(s).contains_key(t[0].0));
        }
        assert(s =~= t);
    } else if t.len() == 0 {
        lemma_place(s, 0);
        assert(map_of(t).contains_key(s[0].0));
    } else {
        let n = s.len() - 1;
        let m = t.len() - 1;
        let a = s[n].0;
        let b = t[m].0;
        lemma_place(s, n);
        lemma_place(t, m);
        assert(listed(t, a));
        assert(listed(s, b));
        let p = place(t, a);
        let q = place(s, b);
        text_less_total(a, b);
        if a != b {
            assert(text_less(t[p].0, t[m].0) || p == m);
            assert(text_less(s[q].0, s[n].0) || q == n);
        }
        assert(a == b);
        assert(s[n] == t[m]);
        let s1 = s.drop_last();
        let t1 = t.drop_last();
        assert forall|k: Seq<char>| listed(s1, k) == listed(t1, k) by {
            lemma_drop_last_listed(s, k);
            lemma_drop_last_listed(t, k);
            assert(map_of(s).contains_key(k) == listed(s, k));
            assert(map_of(t).contains_key(k) == listed(t, k));
        }
        assert forall|k: Seq<char>| listed(s1, k) implies map_of(s1)[k] == map_of(t1)[k] by {
            assert(listed(t1, k));
            let i = place(s1, k);
            let j = place(t1, k);
            lemma_place(s, i);
            lemma_place(t, j);
            assert(s[i] == s1[i] && t[j] == t1[j]);
        }
        assert(map_of(s1) =~= map_of(t1));
        lemma_listing_unique(s1, t1);
        assert(s =~= s1.push(s[n]));
        assert(t =~= t1.push(t[m]));
    }
}

/// What a rising listing has without its last entry.
proof fn lemma_drop_last_listed<A>(s: Seq<(Seq<char>, A)>, k: Seq<char>)
    requires
        rising(s),
        s.len() > 0,
    ensures
        listed(s.drop_last(), k) <==> (listed(s, k) && k != s.last().0),
{
    let d = s.drop_last();
    if listed(d, k) {
        let i = place(d, k);
        assert(d[i] == s[i]);
        assert(text_less(s[i].0, s[s.len() - 1].0));
        text_less_total(k, k);
    }
    if listed(s, k) && k != s.last().0 {
        let i = place(s, k);
        assert(d[i] == s[i]);
    }
}

/// The listing of a list of entries.
pub open spec fn listing_of<T: View>(entries: Seq<(String, T)>) -> Seq<(Seq<char>, T::V)> {
    entries.map_values(|e: (String, T)| (e.0@, e.1@))
}

/// Whether the keys of a list of entries rise strictly.
spec fn keys_rise<T>(entries: Seq<(String, T)>) -> bool {
    forall|i: int, j: int|
        0 <= i < j < entries.len() ==> text_less(
            (#[trigger] entries[i]).0@,
            (#[trigger] entries[j]).0@,
        )
}

/// Entries rise when their listing does.
proof fn lemma_keys_rise<T: View>(entries: Seq<(String, T)>)
    ensures
        keys_rise(entries) == rising(listing_of(entries)),
{
    let l = listing_of(entries);
    assert forall|i: int| 0 <= i < entries.len() implies (#[trigger] entries[i]).0@ == l[i].0 by {}
    if rising(l) {
        assert forall|i: int, j: int| 0 <= i < j < entries.len() implies text_less(
            (#[trigger] entries[i]).0@,
            (#[trigger] entries[j]).0@,
        ) by {
            assert(text_less(l[i].0, l[j].0));
        }
    }
    if keys_rise(entries) {
        assert forall|i: int, j: int| 0 <= i < j < l.len() implies text_less(
            (#[trigger] l[i]).0,
            (#[trigger] l[j]).0,
        ) by {
            assert(text_less(entries[i].0@, entries[j].0@));
        }
    }
}

impl<T> TextMap<T> {
    #[verifier::type_invariant]
    spec fn well_formed(self) -> bool {
        keys_rise(self.entries@)
    }
}

impl<T: View> TextMap<T> {
    /// The entries in the order of their keys.
    pub closed spec fn listing(&self) -> Seq<(Seq<char>, T::V)> {
        listing_of(self.entries@)
    }
}

impl<T: View> View for TextMap<T> {
    type V = Map<Seq<char>, T::V>;

    open spec fn view(&self) -> Map<Seq<char>, T::V> {
        map_of(self.listing())
    }
}

impl<T: View> TextMap<T> {
    /// An empty map.
    pub fn new() -> (r: Self)
        ensures
            r@ == Map::<Seq<char>, T::V>::empty(),
            r.listing() == Seq::<(Seq<char>, T::V)>::empty(),
    {
        let r = TextMap { entries: Vec::new() };
        proof {
            assert(r.listing() =~= Seq::empty());
            assert(r@ =~= Map::empty());
        }
        r
    }

    /// The number of entries.
    pub fn len(&self) -> (r: usize)
        ensures
            r == self.listing().len(),
            rising(self.listing()),
            self.listing() == ordered_pairs(self@),
            self@.dom().finite(),
    {
        proof {
            use_type_invariant(self);
            lemma_keys_rise(self.entries@);
            lemma_listing_unique(self.listing(), ordered_pairs(self@));
            lemma_map_finite(self.listing());
        }
        self.entries.len()
    }

    /// The key of the entry at `i` in the order of the keys.
    pub fn key_at(&self, i: usize) -> (r: &String)
        requires
            i < self.listing().len(),
        ensures
            r@ == self.listing()[i as int].0,
            self@.contains_key(r@),
    {
        proof {
            use_type_invariant(self);
            lemma_keys_rise(self.entries@);
            lemma_place(self.listing(), i as int);
        }
        &self.entries[i].0
    }

    /// The value of the entry at `i` in the order of the keys.
    pub fn value_at(&self, i: usize) -> (r: &T)
        requires
            i < self.listing().len(),
        ensures
            r@ == self.listing()[i as int].1,
            r@ == self@[self.listing()[i as int].0],
    {
        proof {
            use_type_invariant(self);
            lemma_keys_rise(self.entries@);
            lemma_place(self.listing(), i as int);
        }
        &self.entries[i].1
    }

    /// The first place whose key does not stand before `key`.
    fn seek(&self, key: &str) -> (r: (usize, bool))
        ensures
            r.0 <= self.listing().len(),
            forall|k: int| 0 <= k < r.0 ==> text_less((#[trigger] self.listing()[k]).0, key@),
            r.1 ==> r.0 < self.listing().len() && self.listing()[r.0 as int].0 == key@,
            !r.1 ==> (r.0 < self.listing().len() ==> text_less(
                key@,
                self.listing()[r.0 as int].0,
            )),
            r.1 == self@.contains_key(key@),
    {
        proof {
            use_type_invariant(self);
            lemma_keys_rise(self.entries@);
        }
        let mut i: usize = 0;
        while i < self.entries.len()
            invariant
                i <= self.entries@.len(),
                rising(self.listing()),
                forall|k: int| 0 <= k < i ==> text_less((#[trigger] self.listing()[k]).0, key@),
            decreases self.entries@.len() - i,
        {
            match compare_text(self.entries[i].0.as_str(), key) {
                Rank::Less => {},
                Rank::Equal => {
                    proof {
                        lemma_place(self.listing(), i as int);
                    }
                    return (i, true);
                },
                Rank::Greater => {
                    proof {
                        lemma_absent(self.listing(), i as int, key@);
                    }
                    return (i, false);
                },
            }
            i += 1;
        }
        proof {
            lemma_absent(self.listing(), i as int, key@);
        }
        (i, false)
    }

    /// Whether the map has an entry for `key`.
    pub fn contains_key(&self, key: &str) -> (r: bool)
        ensures
            r == self@.contains_key(key@),
    {
        self.seek(key).1
    }

    /// The value for `key`.
    pub fn get(&self, key: &str) -> (r: Option<&T>)
        ensures
            match r {
                Some(v) => self@.contains_key(key@) && v@ == self@[key@],
                None => !self@.contains_key(key@),
            },
    {
        let at = self.seek(key);
        if at.1 {
            proof {
                use_type_invariant(self);
            lemma_keys_rise(self.entries@);
                lemma_place(self.listing(), at.0 as int);
            }
            Some(&self.entries[at.0].1)
        } else {
            None
        }
    }

    /// Sets the value for `key`.
    pub fn insert(&mut self, key: String, value: T)
        ensures
            final(self)@ == old(self)@.insert(key@, value@),
    {
        let at = self.seek(key.as_str());
        proof {
            use_type_invariant(&*self);
            lemma_keys_rise(self.entries@);
        }
        let ghost before = self.listing();
        let ghost k = key@;
        let ghost v = value@;
        let ghost p = at.0 as int;
        let mut entries: Vec<(String, T)> = Vec::new();
        std::mem::swap(&mut entries, &mut self.entries);
        if at.1 {
            let _ = entries.remove(at.0);
        }
        entries.insert(at.0, (key, value));
        proof {
            if at.1 {
                assert(listing_of(entries@) =~= before.update(p, (k, v)));
                lemma_update(before, p, v);
            } else {
                assert(listing_of(entries@) =~= before.insert(p, (k, v)));
                lemma_put(before, p, k, v);
            }
            lemma_keys_rise(entries@);
        }
        self.entries = entries;
    }

    /// Takes the entry for `key` out, if there is one.
    pub fn remove(&mut self, key: &str)
        ensures
            final(self)@ == old(self)@.remove(key@),
    {
        let at = self.seek(key);
        proof {
            use_type_invariant(&*self);
            lemma_keys_rise(self.entries@);
        }
        let ghost before = self.listing();
        let ghost p = at.0 as int;
        if at.1 {
            let mut entries: Vec<(String, T)> = Vec::new();
            std::mem::swap(&mut entries, &mut self.entries);
            let _ = entries.remove(at.0);
            proof {
                assert(listing_of(entries@) =~= before.remove(p));
                lemma_unset(before, p);
                lemma_keys_rise(entries@);
            }
            self.entries = entries;
        } else {
            proof {
                assert(self@.remove(key@) =~= self@);
            }
        }
    }
}

/// A rising listing with one more entry behind.
pub proof fn lemma_take<A>(s: Seq<(Seq<char>, A)>, i: int)
    requires
        rising(s),
        0 <= i < s.len(),
    ensures
        map_of(s.take(i + 1)) == map_of(s.take(i)).insert(s[i].0, s[i].1),
{
    let t = s.take(i);
    assert(rising(t)) by {
        assert forall|x: int, y: int| 0 <= x < y < t.len() implies text_less(
            (#[trigger] t[x]).0,
            (#[trigger] t[y]).0,
        ) by {
            assert(t[x] == s[x] && t[y] == s[y]);
        }
    }
    assert forall|k: int| 0 <= k < t.len() implies text_less((#[trigger] t[k]).0, s[i].0) by {
        assert(t[k] == s[k]);
    }
    lemma_put(t, i, s[i].0, s[i].1);
    assert(t.insert(i, (s[i].0, s[i].1)) =~= s.take(i + 1));
}

/// A key between two neighbours of a rising listing is not in it.
proof fn lemma_absent<A>(s: Seq<(Seq<char>, A)>, p: int, key: Seq<char>)
    requires
        rising(s),
        0 <= p <= s.len(),
        forall|k: int| 0 <= k < p ==> text_less((#[trigger] s[k]).0, key),
        p < s.len() ==> text_less(key, s[p].0),
    ensures
        !listed(s, key),
{
    text_less_total(key, key);
    if listed(s, key) {
        let i = place(s, key);
        if p < i {
            text_less_transitive(key, s[p].0, s[i].0);
        }
    }
}

/// Changing the value at one place of a rising listing.
proof fn lemma_update<A>(s: Seq<(Seq<char>, A)>, p: int, value: A)
    requires
        rising(s),
        0 <= p < s.len(),
    ensures
        rising(s.update(p, (s[p].0, value))),
        map_of(s.update(p, (s[p].0, value))) == map_of(s).insert(s[p].0, value),
{
    let key = s[p].0;
    let r = s.update(p, (key, value));
    assert forall|i: int| 0 <= i < s.len() implies (#[trigger] r[i]).0 == s[i].0 by {}
    assert forall|i: int, j: int| 0 <= i < j < r.len() implies text_less(
        (#[trigger] r[i]).0,
        (#[trigger] r[j]).0,
    ) by {
        assert(text_less(s[i].0, s[j].0));
    }
    assert forall|k: Seq<char>| #[trigger] listed(r, k) == listed(s, k) by {
        if listed(r, k) {
            assert(s[place(r, k)].0 == k);
        }
        if listed(s, k) {
            assert(r[place(s, k)].0 == k);
        }
    }
    let want = map_of(s).insert(key, value);
    lemma_place(s, p);
    assert forall|k: Seq<char>| map_of(r).contains_key(k) implies map_of(r)[k] == want[k] by {
        assert(listed(r, k));
        let i = place(r, k);
        lemma_place(r, i);
        lemma_place(s, i);
    }
    assert(map_of(r) =~= want);
}

/// Putting a new key at its place in a rising listing.
proof fn lemma_put<A>(s: Seq<(Seq<char>, A)>, p: int, key: Seq<char>, value: A)
    requires
        rising(s),
        0 <= p <= s.len(),
        forall|k: int| 0 <= k < p ==> text_less((#[trigger] s[k]).0, key),
        p < s.len() ==> text_less(key, s[p].0),
    ensures
        rising(s.insert(p, (key, value))),
        map_of(s.insert(p, (key, value))) == map_of(s).insert(key, value),
{
    let r = s.insert(p, (key, value));
    assert forall|i: int, j: int| 0 <= i < j < r.len() implies text_less(
        (#[trigger] r[i]).0,
        (#[trigger] r[j]).0,
    ) by {
        if j < p {
            assert(r[i] == s[i] && r[j] == s[j]);
        } else if j == p {
            assert(r[i] == s[i]);
        } else if i < p {
            assert(r[i] == s[i] && r[j] == s[j - 1]);
        } else if i == p {
            assert(r[j] == s[j - 1]);
            if j - 1 != p {
                text_less_transitive(key, s[p].0, s[j - 1].0);
            }
        } else {
            assert(r[i] == s[i - 1] && r[j] == s[j - 1]);
        }
    }
    lemma_absent(s, p, key);
    assert(r[p] == (key, value));
    lemma_place(r, p);
    lemma_unset(r, p);
    assert(r.remove(p) =~= s);
    assert(map_of(r) =~= map_of(r).remove(key).insert(key, value));
}

/// Taking an entry out of a rising listing.
proof fn lemma_unset<A>(s: Seq<(Seq<char>, A)>, p: int)
    requires
        rising(s),
        0 <= p < s.len(),
    ensures
        rising(s.remove(p)),
        map_of(s.remove(p)) == map_of(s).remove(s[p].0),
{
    let r = s.remove(p);
    let key = s[p].0;
    let fwd = |i: int|
        if i < p {
            i
        } else {
            i + 1
        };
    assert forall|i: int, j: int| 0 <= i < j < r.len() implies text_less(
        (#[trigger] r[i]).0,
        (#[trigger] r[j]).0,
    ) by {
        assert(r[i] == s[fwd(i)]);
        assert(r[j] == s[fwd(j)]);
    }
    assert forall|k: Seq<char>| #[trigger] listed(r, k) == (k != key && listed(s, k)) by {
        if listed(r, k) {
            let i = place(r, k);
            assert(r[i] == s[fwd(i)]);
            lemma_place(s, fwd(i));
            lemma_place(s, p);
        }
        if k != key && listed(s, k) {
            let i = place(s, k);
            let f = if i < p {
                i
            } else {
                i - 1
            };
            assert(r[f] == s[i]);
        }
    }
    let want = map_of(s).remove(key);
    assert forall|k: Seq<char>| map_of(r).contains_key(k) implies map_of(r)[k] == want[k] by {
        assert(listed(r, k));
        let i = place(r, k);
        assert(r[i] == s[fwd(i)]);
        lemma_place(r, i);
        lemma_place(s, fwd(i));
    }
    assert(map_of(r) =~= want);
}

/// A key that a rising listing has not got belongs at one place in it.
proof fn lemma_place_for<A>(s: Seq<(Seq<char>, A)>, key: Seq<char>) -> (p: int)
    requires
        rising(s),
        !listed(s, key),
    ensures
        0 <= p <= s.len(),
        forall|k: int| 0 <= k < p ==> text_less((#[trigger] s[k]).0, key),
        p < s.len() ==> text_less(key, s[p].0),
    decreases s.len(),
{
    if s.len() == 0 {
        0
    } else {
        let n = s.len() - 1;
        let d = s.drop_last();
        assert(rising(d)) by {
            assert forall|x: int, y: int| 0 <= x < y < d.len() implies text_less(
                (#[trigger] d[x]).0,
                (#[trigger] d[y]).0,
            ) by {
                assert(d[x] == s[x] && d[y] == s[y]);
            }
        }
        lemma_drop_last_listed(s, key);
        let p = lemma_place_for(d, key);
        assert(s[n].0 != key);
        text_less_total(s[n].0, key);
        assert forall|k: int| 0 <= k < p implies text_less((#[trigger] s[k]).0, key) by {
            assert(d[k] == s[k]);
        }
        if p < d.len() {
            assert(d[p] == s[p]);
            p
        } else if text_less(s[n].0, key) {
            s.len() as int
        } else {
            n
        }
    }
}

/// Every finite map has its entries in the order of their keys.
pub proof fn lemma_ordered_pairs<A>(m: Map<Seq<char>, A>)
    requires
        m.dom().finite(),
    ensures
        rising(ordered_pairs(m)),
        map_of(ordered_pairs(m)) == m,
    decreases m.dom().len(),
{
    if m.dom().len() == 0 {
        let none = Seq::<(Seq<char>, A)>::empty();
        assert(map_of(none) =~= m) by {
            assert forall|k: Seq<char>| !m.contains_key(k) by {
                if m.dom().contains(k) {
                    assert(m.dom().remove(k).len() == m.dom().len() - 1);
                }
            }
        }
        assert(rising(none));
    } else {
        let k = m.dom().choose();
        assert(m.dom().contains(k));
        let rest = m.remove(k);
        assert(rest.dom() =~= m.dom().remove(k));
        lemma_ordered_pairs(rest);
        let s = ordered_pairs(rest);
        assert(!listed(s, k)) by {
            assert(!map_of(s).contains_key(k));
        }
        let p = lemma_place_for(s, k);
        lemma_put(s, p, k, m[k]);
        let r = s.insert(p, (k, m[k]));
        assert(map_of(r) =~= m);
        assert(rising(r) && map_of(r) == m);
    }
}

/// The entries of a map whose values are replaced one for one keep their order.
pub proof fn lemma_ordered_mapped<A, B>(s: Seq<(Seq<char>, A)>, f: spec_fn(A) -> B)
    requires
        rising(s),
    ensures
        ordered_pairs(map_of(s).map_values(f)) == s.map_values(|p: (Seq<char>, A)| (p.0, f(p.1))),
{
    let t = s.map_values(|p: (Seq<char>, A)| (p.0, f(p.1)));
    assert(rising(t)) by {
        assert forall|i: int, j: int| 0 <= i < j < t.len() implies text_less(
            (#[trigger] t[i]).0,
            (#[trigger] t[j]).0,
        ) by {
            assert(t[i].0 == s[i].0 && t[j].0 == s[j].0);
        }
    }
    let m = map_of(s).map_values(f);
    assert forall|k: Seq<char>| listed(t, k) == #[trigger] m.contains_key(k) by {
        if listed(s, k) {
            assert(t[place(s, k)].0 == k);
        }
        if listed(t, k) {
            assert(s[place(t, k)].0 == k);
        }
    }
    assert forall|k: Seq<char>| #[trigger] m.contains_key(k) implies map_of(t)[k] == m[k] by {
        let i = place(s, k);
        assert(t[i].0 == k);
        lemma_place(s, i);
        lemma_place(t, i);
    }
    assert(map_of(t) =~= m);
    lemma_listing_unique(t, ordered_pairs(m));
}

/// The keys of a listing.
pub open spec fn keys_in<A>(s: Seq<(Seq<char>, A)>) -> Seq<Seq<char>> {
    s.map_values(|p: (Seq<char>, A)| p.0)
}

/// The keys of a map in order.
pub open spec fn ordered_keys<A>(m: Map<Seq<char>, A>) -> Seq<Seq<char>> {
    keys_in(ordered_pairs(m))
}

/// The keys of a finite map in order are its keys, once each.
pub proof fn lemma_ordered_keys<A>(m: Map<Seq<char>, A>)
    requires
        m.dom().finite(),
    ensures
        forall|k: Seq<char>| #[trigger] ordered_keys(m).contains(k) <==> m.contains_key(k),
        forall|i: int, j: int|
            0 <= i < j < ordered_keys(m).len() ==> text_less(
                #[trigger] ordered_keys(m)[i],
                #[trigger] ordered_keys(m)[j],
            ),
{
    lemma_ordered_pairs(m);
    let s = ordered_pairs(m);
    let keys = ordered_keys(m);
    assert forall|k: Seq<char>| #[trigger] keys.contains(k) <==> m.contains_key(k) by {
        if keys.contains(k) {
            let i = choose|i: int| 0 <= i < keys.len() && keys[i] == k;
            lemma_place(s, i);
        }
        if m.contains_key(k) {
            assert(listed(s, k)) by {
                assert(map_of(s).contains_key(k));
            }
            assert(keys[place(s, k)] == k);
        }
    }
    assert forall|i: int, j: int| 0 <= i < j < keys.len() implies text_less(
        #[trigger] keys[i],
        #[trigger] keys[j],
    ) by {
        assert(keys[i] == s[i].0 && keys[j] == s[j].0);
    }
}

} // verus!
