//! Services labeled for advertisement, as microinit reports them.
//!
//! A watch connection stays open. Heartbeats are ignored. Snapshots replace the
//! advertised set. A dropped connection keeps the last good set.

use vstd::prelude::*;

use crate::config::{
    non_blank, protocol_fault, protocol_from_type, type_fault, type_protocol, validate_service_type, EntryView,
    ServiceEntry,
};
use crate::error::{Error, ErrorView};
use crate::numeral::{decimal, decimal_reads_back, parse_unsigned, unsigned_to};
use crate::order::{
    lemma_sorts_contains, lemma_stable_sorted, lemma_sum_has, pair_views, sort,
    sorting_keeps_everything, stable_sorted,
};
use crate::text::{begins, lower, quote, quoted, same, skip_chars, starts_with, trim, trimmed};
use crate::textmap::{map_of, TextMap};
use crate::value::{copy_list, lemma_views_push, opt_view, views, Value};

verus! {

/// The largest payload on the socket of microinit.
pub const MAX_FRAME: usize = 0x100_0000;

/// The largest time without a frame, in milliseconds.
pub const IDLE_READ_MS: u64 = 30_000;

/// One microinit `list`/`watch` row.
#[derive(Debug, PartialEq, Eq)]
pub struct WatchedService {
    pub name: String,
    pub state: String,
    pub labels: TextMap<String>,
}

/// What a [`WatchedService`] stands for.
#[verifier::ext_equal]
pub struct WatchedView {
    pub name: Seq<char>,
    pub state: Seq<char>,
    pub labels: Map<Seq<char>, Seq<char>>,
}

impl View for WatchedService {
    type V = WatchedView;

    open spec fn view(&self) -> WatchedView {
        WatchedView { name: self.name@, state: self.state@, labels: self.labels@ }
    }
}

/// What becomes of a watched service.
#[derive(Debug, PartialEq, Eq)]
pub enum MapResult {
    /// It is advertised.
    Ad(ServiceEntry),
    /// It is not meant to be advertised.
    Skip,
    /// It is meant to be advertised but cannot be, for the given reason.
    Invalid(String),
}

/// What a [`MapResult`] stands for.
#[verifier::ext_equal]
pub enum MapView {
    Ad(EntryView),
    Skip,
    Invalid(Seq<char>),
}

impl View for MapResult {
    type V = MapView;

    open spec fn view(&self) -> MapView {
        match self {
            MapResult::Ad(e) => MapView::Ad(e@),
            MapResult::Skip => MapView::Skip,
            MapResult::Invalid(m) => MapView::Invalid(m@),
        }
    }
}

/// The label of a map, if it has it.
pub open spec fn label(labels: Map<Seq<char>, Seq<char>>, key: Seq<char>) -> Option<Seq<char>> {
    if labels.contains_key(key) {
        Some(labels[key])
    } else {
        None
    }
}

/// Whether a label becomes a TXT property: it has the prefix, something behind
/// the prefix, and a value.
pub open spec fn txt_label(key: Seq<char>, value: Seq<char>) -> bool {
    begins(key, "microdns-txt-"@) && key.len() > 13 && value.len() > 0
}

/// The TXT properties that labels stand for.
pub open spec fn label_txt(labels: Map<Seq<char>, Seq<char>>) -> Map<Seq<char>, Seq<char>> {
    Map::new(
        |k: Seq<char>|
            labels.contains_key("microdns-txt-"@ + k) && k.len() > 0 && labels["microdns-txt-"@
                + k].len() > 0,
        |k: Seq<char>| labels["microdns-txt-"@ + k],
    )
}

/// Why a port label is refused, given the label in quotes.
pub open spec fn port_reason(label_quoted: Seq<char>) -> Seq<char> {
    "label microdns-port="@ + label_quoted + " is not a non-zero u16"@
}

/// What becomes of a watched service: only running services with a valid
/// `microdns-port` and `microdns-type` are advertised.
pub open spec fn mapped(svc: WatchedView) -> MapView {
    match label(svc.labels, "microdns-port"@) {
        Some(port_text) if svc.state == "running"@ => {
            let port = unsigned_to(port_text, 10, 0xffff);
            match label(svc.labels, "microdns-type"@) {
                _ if port is None || port->0 == 0 => MapView::Invalid(
                    port_reason(quoted(port_text)),
                ),
                None => MapView::Invalid("missing microdns-type"@),
                Some(t) => {
                    let type_ = trimmed(t);
                    if type_fault(svc.name, type_) is Some {
                        MapView::Invalid(type_fault(svc.name, type_)->0)
                    } else if type_protocol(type_) is None {
                        MapView::Invalid("cannot derive protocol from type "@ + type_)
                    } else if svc.name.len() == 0 {
                        MapView::Invalid("empty service name"@)
                    } else {
                        MapView::Ad(
                            EntryView {
                                name: svc.name,
                                type_,
                                protocol: type_protocol(type_)->0,
                                port: port->0 as u16,
                                host: non_blank(label(svc.labels, "microdns-host"@)),
                                txt: if label_txt(svc.labels).dom() == Set::<Seq<char>>::empty() {
                                    None
                                } else {
                                    Some(label_txt(svc.labels))
                                },
                            },
                        )
                    }
                },
            }
        },
        _ => MapView::Skip,
    }
}

/// The TXT properties among the first `n` labels of a listing.
spec fn txt_upto(listing: Seq<(Seq<char>, Seq<char>)>, n: int) -> Map<Seq<char>, Seq<char>>
    decreases n,
{
    if n <= 0 {
        Map::empty()
    } else {
        let (k, v) = listing[n - 1];
        if txt_label(k, v) {
            txt_upto(listing, n - 1).insert(k.skip(13), v)
        } else {
            txt_upto(listing, n - 1)
        }
    }
}

/// The TXT properties collected from a listing are those of the map.
proof fn lemma_txt_upto(listing: Seq<(Seq<char>, Seq<char>)>, n: int)
    requires
        crate::textmap::rising(listing),
        0 <= n <= listing.len(),
    ensures
        txt_upto(listing, n) == label_txt(map_of(listing.take(n))),
    decreases n,
{
    reveal_strlit("microdns-txt-");
    let p = "microdns-txt-"@;
    if n == 0 {
        assert(label_txt(map_of(listing.take(0))) =~= Map::empty());
    } else {
        lemma_txt_upto(listing, n - 1);
        crate::textmap::lemma_take(listing, n - 1);
        let (k, v) = listing[n - 1];
        let before = map_of(listing.take(n - 1));
        let after = before.insert(k, v);
        assert(listing.take(n - 1 + 1) =~= listing.take(n));
        assert forall|x: Seq<char>| (p + x).skip(13) == x && begins(p + x, p) by {
            assert((p + x).skip(13) =~= x);
            assert((p + x).take(13) =~= p);
        }
        if txt_label(k, v) {
            assert(k =~= p + k.skip(13));
            assert forall|x: Seq<char>| p + x == k implies x == k.skip(13) by {
                assert((p + x).skip(13) =~= x);
            }
            assert(label_txt(after) =~= label_txt(before).insert(k.skip(13), v));
        } else {
            assert(!before.contains_key(k)) by {
                if before.contains_key(k) {
                    let t = listing.take(n - 1);
                    let i = crate::textmap::place(t, k);
                    assert(t[i] == listing[i]);
                    crate::order::text_less_total(k, k);
                }
            }
            assert forall|x: Seq<char>| p + x == k implies !(x.len() > 0 && v.len() > 0) by {
                assert((p + x).skip(13) =~= x);
            }
            assert(label_txt(after) =~= label_txt(before));
        }
    }
}

/// The TXT properties that labels stand for, if there are any.
fn txt_from_labels(labels: &TextMap<String>) -> (r: Option<TextMap<String>>)
    ensures
        opt_view(r) == (if label_txt(labels@).dom() == Set::<Seq<char>>::empty() {
            None
        } else {
            Some(label_txt(labels@))
        }),
{
    let n: usize = labels.len();
    let ghost listing = labels.listing();
    let mut txt: TextMap<String> = TextMap::new();
    let mut any = false;
    let mut i: usize = 0;
    proof {
        reveal_strlit("microdns-txt-");
    }
    while i < n
        invariant
            n == listing.len(),
            listing == labels.listing(),
            "microdns-txt-"@.len() == 13,
            i <= n,
            txt@ == txt_upto(listing, i as int),
            !any ==> txt@ == Map::<Seq<char>, Seq<char>>::empty(),
            any ==> txt@.dom() != Set::<Seq<char>>::empty(),
        decreases n - i,
    {
        let key = labels.key_at(i);
        let value = labels.value_at(i);
        if starts_with(key.as_str(), "microdns-txt-") {
            let rest = skip_chars(key.as_str(), 13);
            if !rest.as_str().is_empty() && !value.as_str().is_empty() {
                txt.insert(rest, value.copied());
                any = true;
                proof {
                    assert(txt@.dom().contains(key@.skip(13)));
                }
            }
        }
        i += 1;
    }
    proof {
        lemma_txt_upto(listing, n as int);
        assert(listing.take(n as int) =~= listing);
        assert(txt@ == label_txt(labels@));
    }
    if any {
        Some(txt)
    } else {
        proof {
            assert(txt@.dom() =~= Set::<Seq<char>>::empty());
        }
        None
    }
}

/// Why a port label is refused, given the label in quotes.
pub fn bad_port(label_quoted: &str) -> (r: String)
    ensures
        r@ == port_reason(label_quoted@),
{
    let mut m = "label microdns-port=".to_owned();
    m.append(label_quoted);
    m.append(" is not a non-zero u16");
    m
}

/// Works out what becomes of a watched service.
pub fn map_service(svc: &WatchedService) -> (r: MapResult)
    ensures
        r@ == mapped(svc@),
{
    if !same(svc.state.as_str(), "running") {
        return MapResult::Skip;
    }
    let port_text = match svc.labels.get("microdns-port") {
        Some(p) => p,
        None => {
            return MapResult::Skip;
        },
    };
    let port: u16 = match parse_unsigned(port_text.as_str(), 10, 0xffff) {
        Some(p) if p != 0 => p as u16,
        _ => {
            return MapResult::Invalid(bad_port(quote(port_text.as_str()).as_str()));
        },
    };
    let type_ = match svc.labels.get("microdns-type") {
        Some(t) => trim(t.as_str()),
        None => {
            return MapResult::Invalid("missing microdns-type".to_owned());
        },
    };
    match validate_service_type(svc.name.as_str(), type_.as_str()) {
        Ok(_) => {},
        Err(e) => {
            return MapResult::Invalid(e.message());
        },
    }
    let protocol = match protocol_from_type(type_.as_str()) {
        Some(p) => p,
        None => {
            let mut m = "cannot derive protocol from type ".to_owned();
            m.append(type_.as_str());
            return MapResult::Invalid(m);
        },
    };
    if svc.name.as_str().is_empty() {
        return MapResult::Invalid("empty service name".to_owned());
    }
    let host = match svc.labels.get("microdns-host") {
        Some(h) => {
            let t = trim(h.as_str());
            if t.as_str().is_empty() {
                None
            } else {
                Some(t)
            }
        },
        None => None,
    };
    let txt = txt_from_labels(&svc.labels);
    MapResult::Ad(
        ServiceEntry {
            name: svc.name.copied(),
            type_,
            protocol: protocol.to_owned(),
            port,
            host,
            txt,
        },
    )
}

/// The advertised entries of a snapshot, in its order.
pub open spec fn mapped_ads(services: Seq<WatchedView>) -> Seq<EntryView>
    decreases services.len(),
{
    if services.len() == 0 {
        Seq::empty()
    } else {
        let before = mapped_ads(services.drop_last());
        match mapped(services.last()) {
            MapView::Ad(e) => before.push(e),
            _ => before,
        }
    }
}

/// The names for which a warning stands after a snapshot.
pub open spec fn warned_after(services: Seq<WatchedView>, warned: Set<Seq<char>>) -> Set<Seq<char>>
    decreases services.len(),
{
    if services.len() == 0 {
        warned
    } else {
        let before = warned_after(services.drop_last(), warned);
        match mapped(services.last()) {
            MapView::Invalid(_) => before.insert(services.last().name),
            _ => before.remove(services.last().name),
        }
    }
}

/// The warnings that a snapshot gives rise to: one for each service that is
/// invalid and was not warned of.
pub open spec fn warnings(services: Seq<WatchedView>, warned: Set<Seq<char>>) -> Seq<
    (Seq<char>, Seq<char>),
>
    decreases services.len(),
{
    if services.len() == 0 {
        Seq::empty()
    } else {
        let before = warnings(services.drop_last(), warned);
        match mapped(services.last()) {
            MapView::Invalid(m) if !warned_after(services.drop_last(), warned).contains(
                services.last().name,
            ) => before.push((services.last().name, m)),
            _ => before,
        }
    }
}

/// Maps a watch snapshot to DNS-SD entries, by name, type and port, together
/// with the warnings due: the name of a service with the reason why it is left
/// out.
pub fn map_snapshot(services: &[WatchedService], warned: &mut TextMap<()>) -> (r: (
    Vec<ServiceEntry>,
    Vec<(String, String)>,
))
    ensures
        views(r.0@) == stable_sorted::<ServiceEntry>(mapped_ads(views(services@))),
        pair_views(r.1@) == warnings(views(services@), old(warned)@.dom()),
        final(warned)@.dom() == warned_after(views(services@), old(warned)@.dom()),
{
    let ghost all = views(services@);
    let ghost start = warned@.dom();
    let mut out: Vec<ServiceEntry> = Vec::new();
    let mut notes: Vec<(String, String)> = Vec::new();
    let mut i: usize = 0;
    proof {
        assert(views(out@) =~= mapped_ads(all.take(0)));
        assert(pair_views(notes@) =~= warnings(all.take(0), start));
    }
    while i < services.len()
        invariant
            i <= services@.len(),
            all == views(services@),
            views(out@) == mapped_ads(all.take(i as int)),
            pair_views(notes@) == warnings(all.take(i as int), start),
            warned@.dom() == warned_after(all.take(i as int), start),
        decreases services@.len() - i,
    {
        let svc = &services[i];
        let ghost before = warned@;
        proof {
            assert(all.take(i + 1).drop_last() =~= all.take(i as int));
            assert(all.take(i + 1).last() == svc@);
        }
        match map_service(svc) {
            MapResult::Ad(entry) => {
                warned.remove(svc.name.as_str());
                let ghost o = out@;
                out.push(entry);
                proof {
                    lemma_views_push(o, entry);
                    assert(warned@.dom() =~= before.dom().remove(svc.name@));
                }
            },
            MapResult::Skip => {
                warned.remove(svc.name.as_str());
                proof {
                    assert(warned@.dom() =~= before.dom().remove(svc.name@));
                }
            },
            MapResult::Invalid(reason) => {
                if !warned.contains_key(svc.name.as_str()) {
                    let ghost o = notes@;
                    notes.push((svc.name.copied(), reason));
                    proof {
                        assert(pair_views(notes@) =~= pair_views(o).push(
                            (svc.name@, reason@),
                        ));
                    }
                }
                warned.insert(svc.name.copied(), ());
                proof {
                    assert(warned@.dom() =~= before.dom().insert(svc.name@));
                }
            },
        }
        i += 1;
    }
    proof {
        assert(all.take(i as int) =~= all);
    }
    sort(&mut out);
    (out, notes)
}

/// Map a watch snapshot to DNS-SD entries. Only `running` services with a
/// valid `microdns-port` + `microdns-type` are advertised. Missing
/// `microdns-host` leaves [`ServiceEntry::host`] unset so mDNS uses the kernel
/// hostname.
pub fn ads_from_snapshot(services: &[WatchedService], warned: &mut TextMap<()>) -> (r: Vec<
    ServiceEntry,
>)
    ensures
        views(r@) == stable_sorted::<ServiceEntry>(mapped_ads(views(services@))),
        final(warned)@.dom() == warned_after(views(services@), old(warned)@.dom()),
{
    map_snapshot(services, warned).0
}

/// What a frame of the watch connection asks for.
#[derive(Debug)]
pub enum FrameOutcome {
    /// Nothing: a heartbeat, or a frame of an unknown type.
    Ignore,
    /// End of the connection, with an error.
    Fail(Error),
    /// A new set of entries, with the warnings due.
    Publish(Vec<ServiceEntry>, Vec<(String, String)>),
}

/// Takes in a frame of the watch connection.
pub fn on_frame(
    type_: &str,
    message: Option<String>,
    services: &[WatchedService],
    warned: &mut TextMap<()>,
) -> (r: FrameOutcome)
    ensures
        if type_@ == "error"@ {
            &&& r matches FrameOutcome::Fail(e)
            &&& e@ == ErrorView::Ipc(
                match message {
                    Some(m) => m@,
                    None => "watch error"@,
                },
            )
        } else if type_@ == "list"@ {
            &&& r matches FrameOutcome::Publish(ads, notes)
            &&& views(ads@) == stable_sorted::<ServiceEntry>(mapped_ads(views(services@)))
            &&& pair_views(notes@) == warnings(
                views(services@),
                old(warned)@.dom(),
            )
        } else {
            r is Ignore
        },
        final(warned)@.dom() == (if type_@ == "list"@ {
            warned_after(views(services@), old(warned)@.dom())
        } else {
            old(warned)@.dom()
        }),
{
    proof {
        reveal_strlit("error");
        reveal_strlit("list");
        assert("error"@.len() != "list"@.len());
    }
    if same(type_, "error") {
        let m = match message {
            Some(m) => m,
            None => "watch error".to_owned(),
        };
        FrameOutcome::Fail(Error::Ipc(m))
    } else if same(type_, "list") {
        let (ads, notes) = map_snapshot(services, warned);
        FrameOutcome::Publish(ads, notes)
    } else {
        FrameOutcome::Ignore
    }
}

/// Latest mapped ads plus a coalescing wake signal for the main loop.
#[derive(Debug)]
pub struct WatchFeed {
    pending: bool,
    latest: Option<Vec<ServiceEntry>>,
    connected: bool,
}

/// The entries of an optional list.
pub open spec fn list_view(v: Option<Vec<ServiceEntry>>) -> Option<Seq<EntryView>> {
    match v {
        Some(l) => Some(views(l@)),
        None => None,
    }
}

/// What a [`WatchFeed`] stands for.
#[verifier::ext_equal]
pub struct FeedView {
    /// Whether a snapshot came in that was not taken yet.
    pub pending: bool,
    /// The newest snapshot.
    pub latest: Option<Seq<EntryView>>,
    /// Whether the main loop still takes snapshots.
    pub connected: bool,
}

impl View for WatchFeed {
    type V = FeedView;

    closed spec fn view(&self) -> FeedView {
        FeedView {
            pending: self.pending,
            latest: list_view(self.latest),
            connected: self.connected,
        }
    }
}

impl WatchFeed {
    /// A feed without a snapshot yet.
    pub fn new() -> (r: Self)
        ensures
            r@ == (FeedView { pending: false, latest: None, connected: true }),
    {
        WatchFeed { pending: false, latest: None, connected: true }
    }

    /// Empty feed used when the watcher thread failed to start.
    pub fn disconnected() -> (r: Self)
        ensures
            r@ == (FeedView { pending: false, latest: None, connected: false }),
    {
        WatchFeed { pending: false, latest: None, connected: false }
    }

    /// Takes in a snapshot. It replaces one that was not taken yet.
    pub fn publish(&mut self, ads: Vec<ServiceEntry>) -> (r: Result<(), Error>)
        ensures
            final(self)@.latest == Some(views(ads@)),
            final(self)@.connected == old(self)@.connected,
            final(self)@.pending == (old(self)@.pending || old(self)@.connected),
            match r {
                Ok(_) => old(self)@.connected,
                Err(e) => !old(self)@.connected && e@ == ErrorView::Ipc("watch consumer gone"@),
            },
    {
        self.latest = Some(ads);
        if self.connected {
            self.pending = true;
            Ok(())
        } else {
            Err(Error::Ipc("watch consumer gone".to_owned()))
        }
    }

    /// Drain wake signals and copy the newest snapshot into `last` if one exists.
    /// Returns true when a wake was pending (even if the snapshot is unchanged).
    pub fn drain_into(&mut self, last: &mut Option<Vec<ServiceEntry>>) -> (r: bool)
        ensures
            r == old(self)@.pending,
            final(self)@ == (FeedView { pending: false, ..old(self)@ }),
            list_view(*final(last)) == (if old(self)@.pending && old(self)@.latest is Some {
                old(self)@.latest
            } else {
                list_view(*old(last))
            }),
    {
        if !self.pending {
            return false;
        }
        self.pending = false;
        match &self.latest {
            Some(snap) => {
                *last = Some(copy_list(snap));
            },
            None => {},
        }
        true
    }
}

/// How long to wait before connecting again, in milliseconds.
pub fn reconnect_ms(configured: u64) -> (r: u64)
    ensures
        r == (if configured < 500 {
            500
        } else {
            configured
        }),
{
    if configured < 500 {
        500
    } else {
        configured
    }
}

/// Every advertised entry comes from a running service of the snapshot, and
/// keeps the rules for configured services: a name, a sound type, the protocol
/// of the type and a port other than zero.
pub proof fn ads_keep_service_rules(services: Seq<WatchedView>, i: int)
    requires
        0 <= i < mapped_ads(services).len(),
    ensures
        ({
            let ad = mapped_ads(services)[i];
            &&& exists|j: int|
                0 <= j < services.len() && (#[trigger] services[j]).state == "running"@
                    && services[j].name == ad.name
            &&& ad.name.len() > 0
            &&& type_fault(ad.name, ad.type_) is None
            &&& protocol_fault(ad.name, ad.type_, ad.protocol) is None
            &&& ad.port != 0
        }),
    decreases services.len(),
{
    let d = services.drop_last();
    if i < mapped_ads(d).len() {
        ads_keep_service_rules(d, i);
        let j = choose|j: int|
            0 <= j < d.len() && (#[trigger] d[j]).state == "running"@ && d[j].name == mapped_ads(
                d,
            )[i].name;
        assert(services[j] == d[j]);
    } else {
        let ad = mapped_ads(services)[i];
        assert(services[services.len() - 1].state == "running"@);
        lemma_plain_word("tcp"@);
        lemma_plain_word("udp"@);
    }
}

/// `tcp` and `udp` are in lower case and without white space.
proof fn lemma_plain_word(w: Seq<char>)
    requires
        w == "tcp"@ || w == "udp"@,
    ensures
        lower(trimmed(w)) == w,
{
    reveal_strlit("tcp");
    reveal_strlit("udp");
    assert(trimmed(w) =~= w);
    assert(lower(w) =~= w);
}

/// A service is warned of once while it stays invalid: a second snapshot with
/// the same rows gives no warning.
pub proof fn warns_once(services: Seq<WatchedView>, warned: Set<Seq<char>>)
    requires
        forall|i: int, j: int|
            0 <= i < j < services.len() ==> (#[trigger] services[i]).name != (
            #[trigger] services[j]).name,
    ensures
        warnings(services, warned_after(services, warned)).len() == 0,
{
    let again = warned_after(services, warned);
    assert forall|i: int|
        0 <= i < services.len() && mapped(#[trigger] services[i])
            is Invalid implies again.contains(services[i].name) by {
        lemma_warned_stays(services, warned, i);
    }
    lemma_no_warnings(services, again, services.len());
}

/// The name of an invalid service is noted, and nothing behind it changes that.
proof fn lemma_warned_stays(services: Seq<WatchedView>, warned: Set<Seq<char>>, i: int)
    requires
        0 <= i < services.len(),
        mapped(services[i]) is Invalid,
        forall|a: int, b: int|
            0 <= a < b < services.len() ==> (#[trigger] services[a]).name != (
            #[trigger] services[b]).name,
    ensures
        warned_after(services, warned).contains(services[i].name),
    decreases services.len(),
{
    if i < services.len() - 1 {
        let d = services.drop_last();
        assert forall|a: int, b: int| 0 <= a < b < d.len() implies (#[trigger] d[a]).name != (
        #[trigger] d[b]).name by {
            assert(d[a] == services[a] && d[b] == services[b]);
        }
        lemma_warned_stays(d, warned, i);
        assert(services[i].name != services[services.len() - 1].name);
    }
}

/// Where every invalid service is noted, the first `n` give no warning.
proof fn lemma_no_warnings(services: Seq<WatchedView>, warned: Set<Seq<char>>, n: nat)
    requires
        n <= services.len(),
        forall|a: int, b: int|
            0 <= a < b < services.len() ==> (#[trigger] services[a]).name != (
            #[trigger] services[b]).name,
        forall|i: int|
            0 <= i < services.len() && mapped(#[trigger] services[i]) is Invalid
                ==> warned.contains(services[i].name),
    ensures
        warnings(services.take(n as int), warned).len() == 0,
        forall|i: int|
            n <= i < services.len() ==> (warned_after(services.take(n as int), warned).contains(
                (#[trigger] services[i]).name,
            ) <==> warned.contains(services[i].name)),
        n == services.len() ==> services.take(n as int) == services,
    decreases n,
{
    if n > 0 {
        lemma_no_warnings(services, warned, (n - 1) as nat);
        assert(services.take(n as int).drop_last() =~= services.take(n - 1));
        assert(services.take(n as int).last() == services[n - 1]);
    }
    assert(n == services.len() ==> services.take(n as int) =~= services);
}

/// What becomes of a service, whatever its other labels are. One that does not
/// run or has no `microdns-port` is passed over. One whose port label is no
/// number from 1 to 65535, or whose type label is missing or unsound, is told
/// as invalid. Every other one is advertised under its own name, with the port
/// that the port label reads as, with the type label without white space
/// around it, and with the host label where that is not blank.
pub proof fn labels_decide(svc: WatchedView)
    ensures
        ({
            let l = svc.labels;
            let meant = svc.state == "running"@ && l.contains_key("microdns-port"@);
            let port = unsigned_to(l["microdns-port"@], 10, 65535);
            let type_ = trimmed(l["microdns-type"@]);
            let sound = l.contains_key("microdns-type"@) && type_fault(svc.name, type_) is None
                && svc.name.len() > 0;
            &&& mapped(svc) is Skip <==> !meant
            &&& mapped(svc) is Ad <==> meant && port is Some && port->0 > 0 && sound
            &&& mapped(svc) matches MapView::Ad(e) ==> {
                &&& e.name == svc.name
                &&& e.type_ == type_
                &&& e.port == port->0
                &&& Some(e.protocol) == type_protocol(type_)
                &&& e.host is Some <==> l.contains_key("microdns-host"@) && trimmed(
                    l["microdns-host"@],
                ).len() > 0
                &&& e.host is Some ==> e.host->0 == trimmed(l["microdns-host"@])
            }
        }),
{
    let type_ = trimmed(svc.labels["microdns-type"@]);
    if type_fault(svc.name, type_) is None {
        crate::config::valid_type_has_protocol(svc.name, type_);
    }
}

/// An advertised service has the TXT property `k` exactly if it has a label
/// `microdns-txt-k` whose value is not empty, and then with that value; it has
/// no TXT record at all where there is no such label.
pub proof fn txt_labels_are_kept(svc: WatchedView, k: Seq<char>)
    ensures
        mapped(svc) matches MapView::Ad(e) ==> {
            let name = "microdns-txt-"@ + k;
            &&& (e.txt is Some && e.txt->0.contains_key(k)) <==> k.len() > 0
                && svc.labels.contains_key(name) && svc.labels[name].len() > 0
            &&& e.txt is Some && e.txt->0.contains_key(k) ==> e.txt->0[k] == svc.labels[name]
            &&& e.txt is Some ==> exists|other: Seq<char>| #[trigger]
                e.txt->0.contains_key(other)
        },
{
    if let MapView::Ad(e) = mapped(svc) {
        let all = label_txt(svc.labels);
        if e.txt is Some {
            assert(exists|other: Seq<char>| #[trigger] all.contains_key(other)) by {
                if forall|other: Seq<char>| !(#[trigger] all.contains_key(other)) {
                    assert(all.dom() =~= Set::<Seq<char>>::empty());
                }
            }
        } else {
            assert(!all.dom().contains(k));
        }
    }
}

/// A port label in plain decimal is the port that is advertised; zero and
/// numbers beyond 65535 are refused.
pub proof fn port_label_is_the_port(svc: WatchedView, n: nat)
    requires
        svc.labels.contains_key("microdns-port"@),
        svc.labels["microdns-port"@] == decimal(n),
    ensures
        mapped(svc) matches MapView::Ad(e) ==> e.port == n,
        n == 0 || n > 65535 ==> !(mapped(svc) is Ad),
{
    decimal_reads_back(n);
}

/// A snapshot is advertised as a whole: an entry is among the advertisements
/// exactly if a service of the snapshot becomes it, and there are as many as
/// there are such services.
pub proof fn snapshot_is_advertised(
    services: Seq<WatchedView>,
    more: WatchedView,
    e: EntryView,
)
    ensures
        ({
            let ads = stable_sorted::<ServiceEntry>(mapped_ads(services));
            let longer = stable_sorted::<ServiceEntry>(mapped_ads(services.push(more)));
            &&& ads.contains(e) <==> exists|i: int|
                0 <= i < services.len() && mapped(#[trigger] services[i]) == MapView::Ad(e)
            &&& longer.len() == ads.len() + (if mapped(more) is Ad {
                1int
            } else {
                0
            })
        }),
{
    let ads = mapped_ads(services);
    lemma_mapped_has(services, e);
    lemma_stable_sorted::<ServiceEntry>(ads);
    lemma_sorts_contains::<ServiceEntry>(stable_sorted::<ServiceEntry>(ads), ads, e);
    sorting_keeps_everything::<ServiceEntry>(ads);
    sorting_keeps_everything::<ServiceEntry>(mapped_ads(services.push(more)));
    assert(services.push(more).drop_last() =~= services);
}

/// The entries of a snapshot are those that its services become.
proof fn lemma_mapped_has(services: Seq<WatchedView>, e: EntryView)
    ensures
        mapped_ads(services).contains(e) <==> exists|i: int|
            0 <= i < services.len() && mapped(#[trigger] services[i]) == MapView::Ad(e),
    decreases services.len(),
{
    if services.len() > 0 {
        let d = services.drop_last();
        let n = services.len() - 1;
        assert(services[n] == services.last());
        lemma_mapped_has(d, e);
        let before = mapped_ads(d);
        if before.contains(e) {
            let i = choose|i: int| 0 <= i < d.len() && mapped(#[trigger] d[i]) == MapView::Ad(e);
            assert(services[i] == d[i]);
        }
        if exists|i: int|
            0 <= i < services.len() && mapped(#[trigger] services[i]) == MapView::Ad(e) {
            let i = choose|i: int|
                0 <= i < services.len() && mapped(#[trigger] services[i]) == MapView::Ad(e);
            if i < n {
                assert(d[i] == services[i]);
            }
        }
        if let MapView::Ad(x) = mapped(services.last()) {
            lemma_sum_has(before, seq![x], e);
            assert(before + seq![x] =~= before.push(x));
            assert(seq![x].contains(e) <==> x == e) by {
                assert(seq![x][0] == x);
            }
        }
    }
}

/// An invalid service that was not warned of is warned of, with its reason; a
/// service that is not invalid never is.
pub proof fn invalid_services_are_told(
    services: Seq<WatchedView>,
    warned: Set<Seq<char>>,
    name: Seq<char>,
    reason: Seq<char>,
)
    requires
        forall|i: int, j: int|
            0 <= i < j < services.len() ==> (#[trigger] services[i]).name != (
            #[trigger] services[j]).name,
    ensures
        warnings(services, warned).contains((name, reason)) <==> !warned.contains(name) && exists|
            i: int,
        |
            0 <= i < services.len() && (#[trigger] services[i]).name == name && mapped(services[i])
                == MapView::Invalid(reason),
        warned_after(services, warned).contains(name) <==> {
            ||| exists|i: int|
                0 <= i < services.len() && (#[trigger] services[i]).name == name && mapped(
                    services[i],
                ) is Invalid
            ||| warned.contains(name) && forall|i: int|
                0 <= i < services.len() ==> (#[trigger] services[i]).name != name
        },
    decreases services.len(),
{
    if services.len() > 0 {
        let d = services.drop_last();
        let n = services.len() - 1;
        let l = services[n];
        assert(l == services.last());
        assert forall|i: int, j: int| 0 <= i < j < d.len() implies (#[trigger] d[i]).name != (
        #[trigger] d[j]).name by {
            assert(d[i] == services[i] && d[j] == services[j]);
        }
        assert forall|i: int| 0 <= i < n implies (#[trigger] services[i]).name != l.name by {}
        assert forall|i: int| 0 <= i < n implies #[trigger] d[i] == services[i] by {}
        invalid_services_are_told(d, warned, name, reason);
        invalid_services_are_told(d, warned, l.name, reason);
        let before = warnings(d, warned);
        if let MapView::Invalid(m) = mapped(l) {
            lemma_sum_has(before, seq![(l.name, m)], (name, reason));
            assert(before + seq![(l.name, m)] =~= before.push((l.name, m)));
            assert(seq![(l.name, m)].contains((name, reason)) <==> (l.name, m) == (name, reason)) by {
                assert(seq![(l.name, m)][0] == (l.name, m));
            }
        }
        if exists|i: int|
            0 <= i < services.len() && (#[trigger] services[i]).name == name && mapped(services[i])
                == MapView::Invalid(reason) {
            let i = choose|i: int|
                0 <= i < services.len() && (#[trigger] services[i]).name == name && mapped(
                    services[i],
                ) == MapView::Invalid(reason);
            if i < n {
                assert(d[i].name == name);
            }
        }
        if exists|i: int|
            0 <= i < services.len() && (#[trigger] services[i]).name == name && mapped(services[i])
                is Invalid {
            let i = choose|i: int|
                0 <= i < services.len() && (#[trigger] services[i]).name == name && mapped(
                    services[i],
                ) is Invalid;
            if i < n {
                assert(d[i].name == name);
            }
        }
        if exists|i: int|
            0 <= i < d.len() && (#[trigger] d[i]).name == name && mapped(d[i]) == MapView::Invalid(
                reason,
            ) {
            let i = choose|i: int|
                0 <= i < d.len() && (#[trigger] d[i]).name == name && mapped(d[i])
                    == MapView::Invalid(reason);
            assert(services[i].name == name);
        }
        if exists|i: int|
            0 <= i < d.len() && (#[trigger] d[i]).name == name && mapped(d[i]) is Invalid {
            let i = choose|i: int|
                0 <= i < d.len() && (#[trigger] d[i]).name == name && mapped(d[i]) is Invalid;
            assert(services[i].name == name);
        }
        if forall|i: int| 0 <= i < d.len() ==> (#[trigger] d[i]).name != name {
            assert forall|i: int| 0 <= i < n implies (#[trigger] services[i]).name != name by {
                assert(d[i].name != name);
            }
        }
    }
}

} // verus!
