//! Values that are compared and copied by what they stand for.

use vstd::prelude::*;

use crate::net::{Ipv4Addr, Ipv6Addr};
use crate::textmap::{lemma_listing_unique, TextMap};

verus! {

/// A value that can be compared with another and copied.
pub trait Value: View + Sized {
    /// Whether two values stand for the same.
    fn same(&self, other: &Self) -> (r: bool)
        ensures
            r == (self@ == other@),
    ;

    /// A value that stands for the same.
    fn copied(&self) -> (r: Self)
        ensures
            r@ == self@,
    ;
}

/// The views of a list of values.
pub open spec fn views<T: View>(v: Seq<T>) -> Seq<T::V> {
    v.map_values(|x: T| x@)
}

/// The view of an optional value.
pub open spec fn opt_view<T: View>(v: Option<T>) -> Option<T::V> {
    match v {
        Some(x) => Some(x@),
        None => None,
    }
}

/// The views of a list with one more value behind.
pub broadcast proof fn lemma_views_push<T: View>(v: Seq<T>, x: T)
    ensures
        #[trigger] views(v.push(x)) == views(v).push(x@),
{
    assert(views(v.push(x)) =~= views(v).push(x@));
}

/// A list of plain values is its own view.
pub proof fn lemma_plain_views()
    ensures
        forall|s: Seq<Ipv4Addr>| #[trigger] views(s) == s,
        forall|s: Seq<u32>| #[trigger] views(s) == s,
{
    assert forall|s: Seq<Ipv4Addr>| #[trigger] views(s) == s by {
        assert(views(s) =~= s);
    }
    assert forall|s: Seq<u32>| #[trigger] views(s) == s by {
        assert(views(s) =~= s);
    }
}

/// Whether two lists stand for the same.
pub fn same_lists<T: Value>(a: &[T], b: &[T]) -> (r: bool)
    ensures
        r == (views(a@) == views(b@)),
{
    if a.len() != b.len() {
        assert(views(a@).len() != views(b@).len());
        return false;
    }
    let mut i: usize = 0;
    while i < a.len()
        invariant
            i <= a@.len() == b@.len(),
            forall|k: int| 0 <= k < i ==> (#[trigger] views(a@)[k]) == views(b@)[k],
        decreases a@.len() - i,
    {
        if !a[i].same(&b[i]) {
            proof {
                assert(views(a@)[i as int] != views(b@)[i as int]);
            }
            return false;
        }
        i += 1;
    }
    proof {
        assert(views(a@) =~= views(b@));
    }
    true
}

/// A list that stands for the same.
pub fn copy_list<T: Value>(a: &[T]) -> (r: Vec<T>)
    ensures
        views(r@) == views(a@),
        r@.len() == a@.len(),
{
    let mut out: Vec<T> = Vec::new();
    let mut i: usize = 0;
    while i < a.len()
        invariant
            i == out@.len() <= a@.len(),
            forall|k: int| 0 <= k < i ==> (#[trigger] views(out@)[k]) == views(a@)[k],
        decreases a@.len() - i,
    {
        let ghost before = out@;
        out.push(a[i].copied());
        proof {
            assert(views(out@) =~= views(before).push(views(a@)[i as int]));
        }
        i += 1;
    }
    proof {
        assert(views(out@) =~= views(a@));
    }
    out
}

/// Whether a list has a value that stands for the same as `x`.
pub fn list_has<T: Value>(v: &[T], x: &T) -> (r: bool)
    ensures
        r == views(v@).contains(x@),
{
    let mut i: usize = 0;
    while i < v.len()
        invariant
            i <= v@.len(),
            forall|k: int| 0 <= k < i ==> (#[trigger] views(v@)[k]) != x@,
        decreases v@.len() - i,
    {
        if v[i].same(x) {
            proof {
                assert(views(v@)[i as int] == x@);
            }
            return true;
        }
        i += 1;
    }
    false
}

/// Whether two optional values stand for the same.
pub fn same_option<T: Value>(a: &Option<T>, b: &Option<T>) -> (r: bool)
    ensures
        r == (opt_view(*a) == opt_view(*b)),
{
    match (a, b) {
        (Some(x), Some(y)) => x.same(y),
        (None, None) => true,
        _ => false,
    }
}

/// An optional value that stands for the same.
pub fn copy_option<T: Value>(a: &Option<T>) -> (r: Option<T>)
    ensures
        opt_view(r) == opt_view(*a),
{
    match a {
        Some(x) => Some(x.copied()),
        None => None,
    }
}

impl Value for String {
    fn same(&self, other: &Self) -> (r: bool) {
        *self == *other
    }

    fn copied(&self) -> (r: Self) {
        self.clone()
    }
}

impl Value for u32 {
    fn same(&self, other: &Self) -> (r: bool) {
        *self == *other
    }

    fn copied(&self) -> (r: Self) {
        *self
    }
}

impl Value for u64 {
    fn same(&self, other: &Self) -> (r: bool) {
        *self == *other
    }

    fn copied(&self) -> (r: Self) {
        *self
    }
}

impl Value for i64 {
    fn same(&self, other: &Self) -> (r: bool) {
        *self == *other
    }

    fn copied(&self) -> (r: Self) {
        *self
    }
}

impl Value for () {
    fn same(&self, other: &Self) -> (r: bool) {
        true
    }

    fn copied(&self) -> (r: Self) {
    }
}

impl Value for Ipv4Addr {
    fn same(&self, other: &Self) -> (r: bool) {
        *self == *other
    }

    fn copied(&self) -> (r: Self) {
        *self
    }
}

impl Value for Ipv6Addr {
    fn same(&self, other: &Self) -> (r: bool) {
        *self == *other
    }

    fn copied(&self) -> (r: Self) {
        *self
    }
}

impl<T: Value> Value for TextMap<T> {
    fn same(&self, other: &Self) -> (r: bool) {
        let n: usize = self.len();
        let m: usize = other.len();
        let ghost s = self.listing();
        let ghost t = other.listing();
        proof {
            if self@ == other@ {
                lemma_listing_unique(s, t);
            }
        }
        if n != m {
            return false;
        }
        let mut i: usize = 0;
        while i < n
            invariant
                n == s.len() == t.len(),
                i <= n,
                s == self.listing(),
                t == other.listing(),
                self@ == other@ ==> s == t,
                forall|k: int| 0 <= k < i ==> (#[trigger] s[k]) == t[k],
            decreases n - i,
        {
            if !self.key_at(i).same(other.key_at(i)) || !self.value_at(i).same(other.value_at(i)) {
                return false;
            }
            i += 1;
        }
        proof {
            assert(s =~= t);
        }
        true
    }

    fn copied(&self) -> (r: Self) {
        let n: usize = self.len();
        let ghost s = self.listing();
        let mut out: TextMap<T> = TextMap::new();
        let mut i: usize = 0;
        proof {
            assert(out@ =~= crate::textmap::map_of(s.take(0)));
        }
        while i < n
            invariant
                n == s.len(),
                i <= n,
                s == self.listing(),
                crate::textmap::rising(s),
                out@ == crate::textmap::map_of(s.take(i as int)),
            decreases n - i,
        {
            proof {
                crate::textmap::lemma_take(s, i as int);
            }
            out.insert(self.key_at(i).copied(), self.value_at(i).copied());
            i += 1;
        }
        proof {
            assert(s.take(i as int) =~= s);
        }
        out
    }
}

} // verus!
