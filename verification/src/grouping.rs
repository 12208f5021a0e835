//! Addresses grouped by interface, for logs and reports.

use vstd::prelude::*;

use crate::legacy_unicast::{Addr4View, Addr6View, AnswerSet, IfaceAddr4, IfaceAddr6};
use crate::net::{dotted, ipv6_text};
use crate::numeral::{decimal, to_decimal};
use crate::order::{
    distinct_keeps_every_value, lemma_filter_has, lemma_sum_has, sort_distinct, sorted_distinct,
    text_less, text_less_total,
};
use crate::text::{debug_list, lemma_filter_push, show_list, texts};
use crate::value::{lemma_views_push, opt_view, views, Value};

verus! {

/// The names of the interfaces that have an address, in order and once each.
pub open spec fn iface_names(v4: Seq<Addr4View>, v6: Seq<Addr6View>) -> Seq<Seq<char>> {
    sorted_distinct::<String>(
        v4.map_values(|a: Addr4View| a.iface) + v6.map_values(|a: Addr6View| a.iface),
    )
}

/// The test for an address of the named interface.
pub open spec fn of4(name: Seq<char>) -> spec_fn(Addr4View) -> bool {
    |a: Addr4View| a.iface == name
}

/// The test for an address of the named interface.
pub open spec fn of6(name: Seq<char>) -> spec_fn(Addr6View) -> bool {
    |a: Addr6View| a.iface == name
}

/// The index of the named interface: that of its first IPv4 address, else that
/// of its first IPv6 address, else zero.
pub open spec fn index_of(name: Seq<char>, v4: Seq<Addr4View>, v6: Seq<Addr6View>) -> u32 {
    let a = v4.filter(of4(name));
    let b = v6.filter(of6(name));
    if a.len() > 0 {
        a[0].ifindex
    } else if b.len() > 0 {
        b[0].ifindex
    } else {
        0
    }
}

/// The names of the interfaces that have an address.
pub fn names_of(v4: &[IfaceAddr4], v6: &[IfaceAddr6]) -> (r: Vec<String>)
    ensures
        texts(r@) == iface_names(views(v4@), views(v6@)),
{
    let ghost a = views(v4@).map_values(|x: Addr4View| x.iface);
    let ghost b = views(v6@).map_values(|x: Addr6View| x.iface);
    let mut out: Vec<String> = Vec::new();
    let mut i: usize = 0;
    proof {
        assert(texts(out@) =~= a.take(0));
    }
    while i < v4.len()
        invariant
            i <= v4@.len(),
            a == views(v4@).map_values(|x: Addr4View| x.iface),
            texts(out@) == a.take(i as int),
        decreases v4@.len() - i,
    {
        let ghost before = out@;
        out.push(v4[i].iface.copied());
        proof {
            assert(texts(out@) =~= texts(before).push(a[i as int]));
            assert(a.take(i + 1) =~= a.take(i as int).push(a[i as int]));
        }
        i += 1;
    }
    let mut k: usize = 0;
    proof {
        assert(a.take(i as int) =~= a);
        assert(texts(out@) =~= a + b.take(0));
    }
    while k < v6.len()
        invariant
            k <= v6@.len(),
            b == views(v6@).map_values(|x: Addr6View| x.iface),
            texts(out@) == a + b.take(k as int),
        decreases v6@.len() - k,
    {
        let ghost before = out@;
        out.push(v6[k].iface.copied());
        proof {
            assert(texts(out@) =~= texts(before).push(b[k as int]));
            assert(a + b.take(k + 1) =~= (a + b.take(k as int)).push(b[k as int]));
        }
        k += 1;
    }
    proof {
        assert(b.take(k as int) =~= b);
    }
    sort_distinct(&mut out);
    out
}

/// The IPv4 addresses of the named interface.
pub fn pick4(v4: &[IfaceAddr4], name: &str) -> (r: Vec<IfaceAddr4>)
    ensures
        views(r@) == views(v4@).filter(of4(name@)),
{
    let ghost all = views(v4@);
    let ghost keep = of4(name@);
    let mut out: Vec<IfaceAddr4> = Vec::new();
    let mut i: usize = 0;
    proof {
        reveal(Seq::filter);
        assert(views(out@) =~= all.take(0).filter(keep));
    }
    while i < v4.len()
        invariant
            i <= v4@.len(),
            all == views(v4@),
            keep == of4(name@),
            views(out@) == all.take(i as int).filter(keep),
        decreases v4@.len() - i,
    {
        proof {
            assert(all.take(i + 1) =~= all.take(i as int).push(all[i as int]));
            lemma_filter_push(all.take(i as int), all[i as int], keep);
        }
        if crate::text::same(v4[i].iface.as_str(), name) {
            let ghost before = out@;
            out.push(v4[i].copied());
            proof {
                lemma_views_push(before, out@.last());
                assert(before.push(out@.last()) =~= out@);
            }
        }
        i += 1;
    }
    proof {
        assert(all.take(i as int) =~= all);
    }
    out
}

/// The IPv6 addresses of the named interface.
pub fn pick6(v6: &[IfaceAddr6], name: &str) -> (r: Vec<IfaceAddr6>)
    ensures
        views(r@) == views(v6@).filter(of6(name@)),
{
    let ghost all = views(v6@);
    let ghost keep = of6(name@);
    let mut out: Vec<IfaceAddr6> = Vec::new();
    let mut i: usize = 0;
    proof {
        reveal(Seq::filter);
        assert(views(out@) =~= all.take(0).filter(keep));
    }
    while i < v6.len()
        invariant
            i <= v6@.len(),
            all == views(v6@),
            keep == of6(name@),
            views(out@) == all.take(i as int).filter(keep),
        decreases v6@.len() - i,
    {
        proof {
            assert(all.take(i + 1) =~= all.take(i as int).push(all[i as int]));
            lemma_filter_push(all.take(i as int), all[i as int], keep);
        }
        if crate::text::same(v6[i].iface.as_str(), name) {
            let ghost before = out@;
            out.push(v6[i].copied());
            proof {
                lemma_views_push(before, out@.last());
                assert(before.push(out@.last()) =~= out@);
            }
        }
        i += 1;
    }
    proof {
        assert(all.take(i as int) =~= all);
    }
    out
}

/// The index of the interface whose addresses were picked.
pub fn picked_index(v4: &[IfaceAddr4], v6: &[IfaceAddr6]) -> (r: u32)
    ensures
        r == (if v4@.len() > 0 {
            v4@[0].ifindex
        } else if v6@.len() > 0 {
            v6@[0].ifindex
        } else {
            0
        }),
{
    if v4.len() > 0 {
        v4[0].ifindex
    } else if v6.len() > 0 {
        v6[0].ifindex
    } else {
        0
    }
}

/// An address with the index of its interface.
pub open spec fn with_index(addr: Seq<char>, ifindex: u32) -> Seq<char> {
    addr + " (ifindex="@ + decimal(ifindex as nat) + ")"@
}

/// An address with the index of its interface.
fn show_indexed(addr: String, ifindex: u32) -> (r: String)
    ensures
        r@ == with_index(addr@, ifindex),
{
    let mut out = addr;
    out.append(" (ifindex=");
    out.append(to_decimal(ifindex as u64).as_str());
    out.append(")");
    out
}

/// The line that tells of one interface, given its addresses as lists.
pub open spec fn iface_line(
    name: Seq<char>,
    ifindex: u32,
    v4_shown: Seq<char>,
    v6_shown: Seq<char>,
) -> Seq<char> {
    "network interface detected name="@ + name + " ifindex="@ + decimal(ifindex as nat)
        + " ipv4="@ + v4_shown + " ipv6="@ + v6_shown + " multicast_group=224.0.0.251"@
}

/// The line that tells of one interface, given its addresses as lists.
pub fn show_iface(name: &str, ifindex: u32, v4_shown: &str, v6_shown: &str) -> (r: String)
    ensures
        r@ == iface_line(name@, ifindex, v4_shown@, v6_shown@),
{
    let mut out = "network interface detected name=".to_owned();
    out.append(name);
    out.append(" ifindex=");
    out.append(to_decimal(ifindex as u64).as_str());
    out.append(" ipv4=");
    out.append(v4_shown);
    out.append(" ipv6=");
    out.append(v6_shown);
    out.append(" multicast_group=224.0.0.251");
    out
}

/// The line that tells of one interface and its addresses.
pub open spec fn detected_line(
    name: Seq<char>,
    v4: Seq<Addr4View>,
    v6: Seq<Addr6View>,
) -> Seq<char> {
    iface_line(
        name,
        index_of(name, v4, v6),
        debug_list(
            v4.filter(of4(name)).map_values(|a: Addr4View| with_index(dotted(a.addr), a.ifindex)),
        ),
        debug_list(
            v6.filter(of6(name)).map_values(
                |a: Addr6View| with_index(ipv6_text(a.addr), a.ifindex),
            ),
        ),
    )
}

/// The lines that tell of the usable interfaces and their addresses.
pub open spec fn detected_lines(v4: Seq<Addr4View>, v6: Seq<Addr6View>) -> Seq<Seq<char>> {
    if v4.len() == 0 && v6.len() == 0 {
        seq!["network interfaces: none usable for mDNS"@]
    } else {
        iface_names(v4, v6).map_values(|n: Seq<char>| detected_line(n, v4, v6))
    }
}

/// The line that tells of one interface and its addresses.
fn detect(name: &str, v4: &[IfaceAddr4], v6: &[IfaceAddr6]) -> (r: String)
    ensures
        r@ == detected_line(name@, views(v4@), views(v6@)),
{
    let a = pick4(v4, name);
    let b = pick6(v6, name);
    let ghost f4 = |x: Addr4View| with_index(dotted(x.addr), x.ifindex);
    let ghost f6 = |x: Addr6View| with_index(ipv6_text(x.addr), x.ifindex);
    let mut shown4: Vec<String> = Vec::new();
    let mut i: usize = 0;
    while i < a.len()
        invariant
            i == shown4@.len() <= a@.len(),
            f4 == (|x: Addr4View| with_index(dotted(x.addr), x.ifindex)),
            forall|k: int| 0 <= k < i ==> (#[trigger] texts(shown4@)[k]) == f4(views(a@)[k]),
        decreases a@.len() - i,
    {
        let ghost before = shown4@;
        shown4.push(show_indexed(a[i].addr.to_text(), a[i].ifindex));
        proof {
            assert(texts(shown4@) =~= texts(before).push(f4(views(a@)[i as int])));
        }
        i += 1;
    }
    let mut shown6: Vec<String> = Vec::new();
    let mut k: usize = 0;
    while k < b.len()
        invariant
            k == shown6@.len() <= b@.len(),
            f6 == (|x: Addr6View| with_index(ipv6_text(x.addr), x.ifindex)),
            forall|j: int| 0 <= j < k ==> (#[trigger] texts(shown6@)[j]) == f6(views(b@)[j]),
        decreases b@.len() - k,
    {
        let ghost before = shown6@;
        shown6.push(show_indexed(b[k].addr.to_text(), b[k].ifindex));
        proof {
            assert(texts(shown6@) =~= texts(before).push(f6(views(b@)[k as int])));
        }
        k += 1;
    }
    proof {
        assert(texts(shown4@) =~= views(a@).map_values(f4));
        assert(texts(shown6@) =~= views(b@).map_values(f6));
        lemma_picked(a@, b@, views(v4@), views(v6@), name@);
    }
    show_iface(
        name,
        picked_index(&a, &b),
        show_list(&shown4).as_str(),
        show_list(&shown6).as_str(),
    )
}

/// The index of the picked addresses is the index of the interface.
pub proof fn lemma_picked(
    a: Seq<IfaceAddr4>,
    b: Seq<IfaceAddr6>,
    v4: Seq<Addr4View>,
    v6: Seq<Addr6View>,
    name: Seq<char>,
)
    requires
        views(a) == v4.filter(of4(name)),
        views(b) == v6.filter(of6(name)),
    ensures
        index_of(name, v4, v6) == (if a.len() > 0 {
            a[0].ifindex
        } else if b.len() > 0 {
            b[0].ifindex
        } else {
            0
        }),
{
    assert(views(a).len() == a.len());
    assert(views(b).len() == b.len());
    if a.len() > 0 {
        assert(views(a)[0].ifindex == a[0].ifindex);
    }
    if b.len() > 0 {
        assert(views(b)[0].ifindex == b[0].ifindex);
    }
}

/// Lines that tell of the usable interfaces and their addresses, one for each
/// interface.
pub fn log_detected_interfaces(answers: &AnswerSet) -> (r: Vec<String>)
    ensures
        texts(r@) == detected_lines(answers@.v4, answers@.v6),
{
    let mut out: Vec<String> = Vec::new();
    if answers.v4.len() == 0 && answers.v6.len() == 0 {
        out.push("network interfaces: none usable for mDNS".to_owned());
        proof {
            assert(texts(out@) =~= seq!["network interfaces: none usable for mDNS"@]);
        }
        return out;
    }
    let names = names_of(&answers.v4, &answers.v6);
    let ghost all = texts(names@);
    let mut i: usize = 0;
    while i < names.len()
        invariant
            i == out@.len() <= names@.len(),
            all == texts(names@),
            forall|k: int|
                0 <= k < i ==> (#[trigger] texts(out@)[k]) == detected_line(
                    all[k],
                    answers@.v4,
                    answers@.v6,
                ),
        decreases names@.len() - i,
    {
        let ghost before = out@;
        out.push(detect(names[i].as_str(), &answers.v4, &answers.v6));
        proof {
            assert(texts(out@) =~= texts(before).push(
                detected_line(all[i as int], answers@.v4, answers@.v6),
            ));
        }
        i += 1;
    }
    proof {
        assert(texts(out@) =~= detected_lines(answers@.v4, answers@.v6));
    }
    out
}

/// Why there is no usable interface, given the configured lists as text.
pub open spec fn iface_reason(allow: Option<Seq<char>>, skip: Option<Seq<char>>) -> Seq<char> {
    match (allow, skip) {
        (Some(a), _) => "none of configured interfaces present/usable (interfaces="@ + a
            + ", skip="@ + (match skip {
            Some(s) => s,
            None => "[]"@,
        }) + ")"@,
        (None, Some(s)) =>
            "no running non-loopback IPv4 (skipping docker/veth/br-*"@ + ", configured "@ + s
            + ")"@,
        (None, None) => "no running non-loopback IPv4 (skipping docker/veth/br-*"@ + ")"@,
    }
}

/// Why there is no usable interface, given the configured lists as text, where
/// they are not empty.
pub fn explain_no_iface(allow: Option<String>, skip: Option<String>) -> (r: String)
    ensures
        r@ == iface_reason(opt_view(allow), opt_view(skip)),
{
    match allow {
        Some(a) => {
            let mut out = "none of configured interfaces present/usable (interfaces=".to_owned();
            out.append(a.as_str());
            out.append(", skip=");
            match skip {
                Some(s) => out.append(s.as_str()),
                None => out.append("[]"),
            }
            out.append(")");
            out
        },
        None => {
            let mut out = "no running non-loopback IPv4 (skipping docker/veth/br-*".to_owned();
            if let Some(s) = skip {
                out.append(", configured ");
                out.append(s.as_str());
            }
            out.append(")");
            out
        },
    }
}

/// A list as text, where it is not empty.
pub open spec fn shown_unless_empty(v: Seq<Seq<char>>) -> Option<Seq<char>> {
    if v.len() == 0 {
        None
    } else {
        Some(debug_list(v))
    }
}

/// Why there is no usable interface.
pub fn no_iface_reason(allow: &[String], skip: &[String]) -> (r: String)
    ensures
        r@ == iface_reason(
            shown_unless_empty(texts(allow@)),
            shown_unless_empty(texts(skip@)),
        ),
{
    let a = if allow.len() == 0 {
        None
    } else {
        Some(show_list(allow))
    };
    let s = if skip.len() == 0 {
        None
    } else {
        Some(show_list(skip))
    };
    assert(texts(allow@).len() == allow@.len());
    assert(texts(skip@).len() == skip@.len());
    explain_no_iface(a, s)
}

/// An interface is told of exactly if it has an address of either kind, once, and
/// in the order of the names.
pub proof fn interfaces_with_addresses_are_told(
    v4: Seq<Addr4View>,
    v6: Seq<Addr6View>,
    name: Seq<char>,
    i: int,
)
    ensures
        ({
            let names = iface_names(v4, v6);
            &&& names.contains(name) <==> {
                ||| exists|k: int| 0 <= k < v4.len() && (#[trigger] v4[k]).iface == name
                ||| exists|k: int| 0 <= k < v6.len() && (#[trigger] v6[k]).iface == name
            }
            &&& names.no_duplicates()
            &&& 0 < i < names.len() ==> text_less(names[i - 1], names[i])
        }),
{
    let a = v4.map_values(|x: Addr4View| x.iface);
    let b = v6.map_values(|x: Addr6View| x.iface);
    let names = iface_names(v4, v6);
    distinct_keeps_every_value::<String>(a + b, name);
    lemma_sum_has(a, b, name);
    if a.contains(name) {
        let k = choose|k: int| 0 <= k < a.len() && a[k] == name;
        assert(v4[k].iface == name);
    }
    if b.contains(name) {
        let k = choose|k: int| 0 <= k < b.len() && b[k] == name;
        assert(v6[k].iface == name);
    }
    if exists|k: int| 0 <= k < v4.len() && (#[trigger] v4[k]).iface == name {
        let k = choose|k: int| 0 <= k < v4.len() && (#[trigger] v4[k]).iface == name;
        assert(a[k] == name);
    }
    if exists|k: int| 0 <= k < v6.len() && (#[trigger] v6[k]).iface == name {
        let k = choose|k: int| 0 <= k < v6.len() && (#[trigger] v6[k]).iface == name;
        assert(b[k] == name);
    }
    if 0 < i < names.len() {
        text_less_total(names[i - 1], names[i]);
        assert(names[i - 1] != names[i]);
    }
}

/// The index that is told for an interface is that of one of its addresses,
/// where they agree on it.
pub proof fn told_index_is_that_of_the_addresses(
    v4: Seq<Addr4View>,
    v6: Seq<Addr6View>,
    name: Seq<char>,
    index: u32,
)
    requires
        forall|k: int| 0 <= k < v4.len() && (#[trigger] v4[k]).iface == name ==> v4[k].ifindex == index,
        forall|k: int| 0 <= k < v6.len() && (#[trigger] v6[k]).iface == name ==> v6[k].ifindex == index,
        iface_names(v4, v6).contains(name),
    ensures
        index_of(name, v4, v6) == index,
{
    interfaces_with_addresses_are_told(v4, v6, name, 0);
    let a = v4.filter(of4(name));
    let b = v6.filter(of6(name));
    if a.len() > 0 {
        assert(a.contains(a[0]));
        lemma_filter_has(v4, of4(name), a[0]);
        let k = choose|k: int| 0 <= k < v4.len() && v4[k] == a[0];
        assert(v4[k].iface == name);
    } else {
        assert forall|k: int| 0 <= k < v4.len() implies (#[trigger] v4[k]).iface != name by {
            if v4[k].iface == name {
                assert(v4.contains(v4[k]));
                lemma_filter_has(v4, of4(name), v4[k]);
            }
        }
        let j = choose|k: int| 0 <= k < v6.len() && (#[trigger] v6[k]).iface == name;
        assert(v6.contains(v6[j]));
        lemma_filter_has(v6, of6(name), v6[j]);
        assert(b.contains(b[0]));
        lemma_filter_has(v6, of6(name), b[0]);
        let k = choose|k: int| 0 <= k < v6.len() && v6[k] == b[0];
        assert(v6[k].iface == name);
    }
}

} // verus!
