//! What the control socket shows.
//!
//! Request `{ "type": "services_list" }` returns the current advertisements
//! (static `services[]` plus dynamic dcc-bus / microinit DNS-SD; not Z21 LAN
//! beacons).

use vstd::prelude::*;
use vstd::utf8::encode_utf8;

use crate::config::{EntryView, ServiceEntry};
use crate::datadir::{below, path};
use crate::error::{Error, ErrorView};
use crate::frame::{encode_frame, frame_length, frame_of, length_in, MAX_FRAME};
use crate::mdns::AnnounceLog;
use crate::numeral::{decimal, to_decimal};
use crate::run::{DesiredAds, DesiredView, DynSource, DynView};
use crate::selfcheck::{unchecked_report, Report, ReportView};
use crate::text::{same, texts};
use crate::textmap::TextMap;
use crate::value::{copy_option, lemma_views_push, opt_view, views, Value};

verus! {

/// Default control socket under the data root.
pub fn default_socket(root: &str) -> (r: String)
    ensures
        r@ == below(below(root@, "run"@), "microdns.sock"@),
{
    path(root, "run", "microdns.sock")
}

/// Origin of a listed DNS-SD advertisement.
#[derive(Debug, Clone, Copy, PartialEq, Eq, Structural)]
pub enum ServiceSource {
    Static,
    DccBus,
    Microinit,
}

/// The name of an origin.
pub open spec fn source_name(source: ServiceSource) -> Seq<char> {
    match source {
        ServiceSource::Static => "static"@,
        ServiceSource::DccBus => "dccBus"@,
        ServiceSource::Microinit => "microinit"@,
    }
}

impl ServiceSource {
    pub fn as_str(self) -> (r: &'static str)
        ensures
            r@ == source_name(self),
    {
        match self {
            ServiceSource::Static => "static",
            ServiceSource::DccBus => "dccBus",
            ServiceSource::Microinit => "microinit",
        }
    }
}

/// One advertised DNS-SD service as returned by `services_list`.
#[derive(Debug, PartialEq, Eq)]
pub struct ListedService {
    pub name: String,
    pub type_: String,
    pub protocol: String,
    pub port: u16,
    pub host: Option<String>,
    pub txt: Option<TextMap<String>>,
    pub source: ServiceSource,
}

/// What a [`ListedService`] stands for.
#[verifier::ext_equal]
pub struct ListedView {
    pub entry: EntryView,
    pub source: ServiceSource,
}

impl View for ListedService {
    type V = ListedView;

    open spec fn view(&self) -> ListedView {
        ListedView {
            entry: EntryView {
                name: self.name@,
                type_: self.type_@,
                protocol: self.protocol@,
                port: self.port,
                host: opt_view(self.host),
                txt: opt_view(self.txt),
            },
            source: self.source,
        }
    }
}

impl ListedService {
    fn from_entry(entry: &ServiceEntry, source: ServiceSource) -> (r: Self)
        ensures
            r@ == (ListedView { entry: entry@, source }),
    {
        ListedService {
            name: entry.name.copied(),
            type_: entry.type_.copied(),
            protocol: entry.protocol.copied(),
            port: entry.port,
            host: copy_option(&entry.host),
            txt: copy_option(&entry.txt),
            source,
        }
    }
}

/// Success body for `services_list`.
#[derive(Debug, PartialEq, Eq)]
pub struct ServicesListBody {
    pub services: Vec<ListedService>,
}

/// The listed origin of a dynamic advertisement.
pub open spec fn listed_source(source: DynSource) -> ServiceSource {
    match source {
        DynSource::DccBus => ServiceSource::DccBus,
        DynSource::Microinit => ServiceSource::Microinit,
    }
}

/// The advertisements as they are listed: the static ones, then the dynamic
/// ones. Beacons are no DNS-SD advertisements.
pub open spec fn listing(ads: DesiredView) -> Seq<ListedView> {
    ads.static_services.map_values(
        |e: EntryView| ListedView { entry: e, source: ServiceSource::Static },
    ) + ads.dynamic.map_values(
        |d: DynView| ListedView { entry: d.entry, source: listed_source(d.source) },
    )
}

/// Flatten the current desired advertisement set for the ctl API.
///
/// Beacons are omitted: they are Z21 LAN broadcasts, not DNS-SD.
pub fn listed_services(ads: &DesiredAds) -> (r: Vec<ListedService>)
    ensures
        views(r@) == listing(ads@),
{
    let ghost all = listing(ads@);
    let ghost n = ads.static_services@.len();
    let mut out: Vec<ListedService> = Vec::new();
    let mut i: usize = 0;
    while i < ads.static_services.len()
        invariant
            i == out@.len() <= n == ads.static_services@.len(),
            all == listing(ads@),
            forall|k: int| 0 <= k < i ==> (#[trigger] views(out@)[k]) == all[k],
        decreases n - i,
    {
        let ghost before = out@;
        out.push(ListedService::from_entry(&ads.static_services[i], ServiceSource::Static));
        proof {
            lemma_views_push(before, out@.last());
            assert(before.push(out@.last()) =~= out@);
        }
        i += 1;
    }
    let mut j: usize = 0;
    while j < ads.dynamic.len()
        invariant
            j <= ads.dynamic@.len(),
            out@.len() == n + j,
            n == ads.static_services@.len(),
            all == listing(ads@),
            forall|k: int| 0 <= k < out@.len() ==> (#[trigger] views(out@)[k]) == all[k],
        decreases ads.dynamic@.len() - j,
    {
        let ad = &ads.dynamic[j];
        let source = match ad.source {
            DynSource::DccBus => ServiceSource::DccBus,
            DynSource::Microinit => ServiceSource::Microinit,
        };
        let ghost before = out@;
        out.push(ListedService::from_entry(&ad.entry, source));
        proof {
            lemma_views_push(before, out@.last());
            assert(before.push(out@.last()) =~= out@);
            assert(views(ads.dynamic@)[j as int] == ad@);
        }
        j += 1;
    }
    proof {
        assert(views(out@) =~= all);
    }
    out
}

/// The listing has the entries of the advertisements, one row each.
pub proof fn listing_has_every_entry(ads: DesiredView)
    ensures
        listing(ads).map_values(|l: ListedView| l.entry) == crate::run::entries_of(ads),
{
    assert(listing(ads).map_values(|l: ListedView| l.entry) =~= crate::run::entries_of(ads));
}

/// The frame of a message on the control socket.
pub fn write_frame(payload: &[u8]) -> (r: Result<Vec<u8>, Error>)
    ensures
        match r {
            Ok(out) => frame_of(payload@, MAX_FRAME) == Ok::<Seq<u8>, ErrorView>(out@),
            Err(e) => frame_of(payload@, MAX_FRAME) == Err::<Seq<u8>, ErrorView>(e@),
        },
{
    encode_frame(payload, MAX_FRAME)
}

/// The length of the message whose header was read from the control socket.
pub fn read_frame(header: &[u8]) -> (r: Result<usize, Error>)
    requires
        header@.len() == 4,
    ensures
        match r {
            Ok(n) => length_in(header@, MAX_FRAME) == Ok::<nat, ErrorView>(n as nat),
            Err(e) => length_in(header@, MAX_FRAME) == Err::<nat, ErrorView>(e@),
        },
{
    frame_length(header, MAX_FRAME)
}

/// What a request on the control socket asks for.
#[derive(Debug, Clone, Copy, PartialEq, Eq, Structural)]
pub enum CtlRequest {
    ServicesList,
    Doctor,
    /// Anything else; the reply is the error `invalid_request`.
    Invalid,
}

/// What a request asks for, by its `type`.
pub fn request_of(type_: &str) -> (r: CtlRequest)
    ensures
        r == (if type_@ == "services_list"@ {
            CtlRequest::ServicesList
        } else if type_@ == "doctor"@ {
            CtlRequest::Doctor
        } else {
            CtlRequest::Invalid
        }),
{
    if same(type_, "services_list") {
        CtlRequest::ServicesList
    } else if same(type_, "doctor") {
        CtlRequest::Doctor
    } else {
        CtlRequest::Invalid
    }
}

/// Live-daemon slice of a doctor report (ctl `doctor` response).
#[derive(Debug, PartialEq, Eq)]
pub struct DaemonDoctor {
    pub services: Vec<ListedService>,
    pub registered: Vec<String>,
    pub metrics: TextMap<i64>,
    pub last_announce_secs_ago: TextMap<u64>,
    pub selfcheck: Report,
}

/// What a [`DaemonDoctor`] stands for.
#[verifier::ext_equal]
pub struct DaemonDoctorView {
    pub services: Seq<ListedView>,
    pub registered: Seq<Seq<char>>,
    pub metrics: Map<Seq<char>, i64>,
    pub last_announce_secs_ago: Map<Seq<char>, u64>,
    pub selfcheck: ReportView,
}

impl View for DaemonDoctor {
    type V = DaemonDoctorView;

    open spec fn view(&self) -> DaemonDoctorView {
        DaemonDoctorView {
            services: views(self.services@),
            registered: texts(self.registered@),
            metrics: self.metrics@,
            last_announce_secs_ago: self.last_announce_secs_ago@,
            selfcheck: self.selfcheck@,
        }
    }
}

/// What the running daemon knows of itself.
#[derive(Debug)]
pub struct RuntimeState {
    /// The names of the registered services, in order.
    pub registered: Vec<String>,
    pub metrics: TextMap<i64>,
    pub log: AnnounceLog,
    pub selfcheck: Report,
}

/// Whole seconds between two clock readings, none where the first is later.
pub open spec fn secs_between(at: u64, now: u64) -> u64 {
    if now > at {
        ((now - at) / 1_000_000_000) as u64
    } else {
        0
    }
}

/// How long ago each announcement was.
fn seconds_ago(log: &AnnounceLog, now: u64) -> (r: TextMap<u64>)
    ensures
        r@ == log@.map_values(|at: u64| secs_between(at, now)),
{
    let snap = log.snapshot();
    let n: usize = snap.len();
    let ghost listing = snap.listing();
    let ghost f = |at: u64| secs_between(at, now);
    let mut out: TextMap<u64> = TextMap::new();
    let mut i: usize = 0;
    proof {
        assert(out@ =~= crate::textmap::map_of(listing.take(0)).map_values(f));
    }
    while i < n
        invariant
            n == listing.len(),
            listing == snap.listing(),
            crate::textmap::rising(listing),
            f == (|at: u64| secs_between(at, now)),
            i <= n,
            out@ == crate::textmap::map_of(listing.take(i as int)).map_values(f),
        decreases n - i,
    {
        let at: u64 = *snap.value_at(i);
        let secs: u64 = if now > at {
            (now - at) / 1_000_000_000
        } else {
            0
        };
        let ghost before = crate::textmap::map_of(listing.take(i as int));
        proof {
            crate::textmap::lemma_take(listing, i as int);
            assert(before.insert(listing[i as int].0, at).map_values(f) =~= before.map_values(
                f,
            ).insert(listing[i as int].0, f(at)));
        }
        out.insert(snap.key_at(i).copied(), secs);
        i += 1;
    }
    proof {
        assert(listing.take(i as int) =~= listing);
    }
    out
}

/// What `doctor` shows of the running daemon.
pub open spec fn doctor_of(
    ads: DesiredView,
    runtime: Option<RuntimeState>,
    unchecked: ReportView,
    now: u64,
) -> DaemonDoctorView {
    match runtime {
        Some(rt) => DaemonDoctorView {
            services: listing(ads),
            registered: texts(rt.registered@),
            metrics: rt.metrics@,
            last_announce_secs_ago: rt.log@.map_values(|at: u64| secs_between(at, now)),
            selfcheck: rt.selfcheck@,
        },
        None => DaemonDoctorView {
            services: listing(ads),
            registered: Seq::empty(),
            metrics: Map::empty(),
            last_announce_secs_ago: Map::empty(),
            selfcheck: unchecked,
        },
    }
}

/// Puts together what `doctor` shows of the running daemon.
pub fn build_daemon_doctor(ads: &DesiredAds, runtime: Option<RuntimeState>, now: u64) -> (r:
    DaemonDoctor)
    ensures
        r@ == doctor_of(ads@, runtime, unchecked_report(), now),
{
    let services = listed_services(ads);
    match runtime {
        Some(rt) => {
            let last = seconds_ago(&rt.log, now);
            DaemonDoctor {
                services,
                registered: rt.registered,
                metrics: rt.metrics,
                last_announce_secs_ago: last,
                selfcheck: rt.selfcheck,
            }
        },
        None => {
            let r = DaemonDoctor {
                services,
                registered: Vec::new(),
                metrics: TextMap::new(),
                last_announce_secs_ago: TextMap::new(),
                selfcheck: Report::default(),
            };
            proof {
                assert(texts(r.registered@) =~= Seq::empty());
            }
            r
        },
    }
}

/// The cells of a row of the table.
pub open spec fn row_cells(s: ListedView) -> Seq<Seq<char>> {
    seq![
        s.entry.name,
        s.entry.type_,
        s.entry.protocol,
        decimal(s.entry.port as nat),
        match s.entry.host {
            Some(h) if h.len() > 0 => h,
            _ => "-"@,
        },
        source_name(s.source),
    ]
}

/// The heading of the table.
pub open spec fn heading() -> Seq<Seq<char>> {
    seq!["NAME"@, "TYPE"@, "PROTO"@, "PORT"@, "HOST"@, "SOURCE"@]
}

/// The rows of the table with its heading.
pub open spec fn table_rows(services: Seq<ListedView>) -> Seq<Seq<Seq<char>>> {
    seq![heading()] + services.map_values(|s: ListedView| row_cells(s))
}

/// The width of a column: the largest number of bytes of a cell in it.
pub open spec fn column_width(rows: Seq<Seq<Seq<char>>>, col: int) -> nat
    decreases rows.len(),
{
    if rows.len() == 0 {
        0
    } else {
        let before = column_width(rows.drop_last(), col);
        let here = encode_utf8(rows.last()[col]).len();
        if here > before {
            here
        } else {
            before
        }
    }
}

/// A cell filled up with blanks to a number of characters.
pub open spec fn padded(cell: Seq<char>, width: nat) -> Seq<char> {
    cell + Seq::new(
        (if width > cell.len() {
            width - cell.len()
        } else {
            0
        }) as nat,
        |i: int| ' ',
    )
}

/// The first `n` cells of a row of six: two blanks between cells, all but the
/// last filled up.
pub open spec fn row_text(cells: Seq<Seq<char>>, rows: Seq<Seq<Seq<char>>>, n: nat) -> Seq<char>
    decreases n,
{
    if n == 0 {
        Seq::empty()
    } else {
        let before = row_text(cells, rows, (n - 1) as nat);
        let gap = if n > 1 {
            "  "@
        } else {
            Seq::empty()
        };
        let cell = if n == 6 {
            cells[n - 1]
        } else {
            padded(cells[n - 1], column_width(rows, n - 1))
        };
        before + gap + cell
    }
}

/// The first `n` lines of a table.
pub open spec fn table_text(rows: Seq<Seq<Seq<char>>>, n: nat) -> Seq<char>
    decreases n,
{
    if n == 0 {
        Seq::empty()
    } else {
        table_text(rows, (n - 1) as nat) + row_text(rows[n - 1], rows, 6) + "\n"@
    }
}

/// The view of the rows of a table.
spec fn row_views(rows: Seq<Vec<String>>) -> Seq<Seq<Seq<char>>> {
    rows.map_values(|r: Vec<String>| texts(r@))
}

/// The width of a column.
fn width_of(rows: &[Vec<String>], col: usize) -> (r: usize)
    requires
        forall|i: int| 0 <= i < rows@.len() ==> col < (#[trigger] rows@[i])@.len(),
    ensures
        r == column_width(row_views(rows@), col as int),
{
    let ghost all = row_views(rows@);
    let mut width: usize = 0;
    let mut i: usize = 0;
    while i < rows.len()
        invariant
            i <= rows@.len(),
            all == row_views(rows@),
            forall|i: int| 0 <= i < rows@.len() ==> col < (#[trigger] rows@[i])@.len(),
            width == column_width(all.take(i as int), col as int),
        decreases rows@.len() - i,
    {
        proof {
            assert(all.take(i + 1).drop_last() =~= all.take(i as int));
            assert(all.take(i + 1).last()[col as int] == rows@[i as int]@[col as int]@);
        }
        let here: usize = rows[i][col].as_str().as_bytes().len();
        if here > width {
            width = here;
        }
        i += 1;
    }
    proof {
        assert(all.take(i as int) =~= all);
    }
    width
}

/// Appends a cell filled up with blanks.
fn push_padded(out: &mut String, cell: &str, width: usize)
    ensures
        final(out)@ == old(out)@ + padded(cell@, width as nat),
{
    let ghost start = out@;
    out.append(cell);
    let mut i: usize = crate::text::chars_of(cell).len();
    let ghost n = cell@.len();
    proof {
        assert(out@ + Seq::new(0, |k: int| ' ') =~= start + cell@);
    }
    while i < width
        invariant
            n <= i,
            n == cell@.len(),
            i <= width || i == n,
            out@ == start + cell@ + Seq::new((i - n) as nat, |k: int| ' '),
        decreases width - i,
    {
        out.push(' ');
        proof {
            assert(Seq::new((i - n) as nat, |k: int| ' ').push(' ') =~= Seq::new(
                (i + 1 - n) as nat,
                |k: int| ' ',
            ));
            assert(out@ =~= start + cell@ + Seq::new((i + 1 - n) as nat, |k: int| ' '));
        }
        i += 1;
    }
    proof {
        assert(out@ =~= start + padded(cell@, width as nat));
    }
}

/// Appends a row of the table.
fn write_padded_row(out: &mut String, cells: &[String], rows: &[Vec<String>])
    requires
        cells@.len() == 6,
        forall|i: int| 0 <= i < rows@.len() ==> (#[trigger] rows@[i])@.len() == 6,
    ensures
        final(out)@ == old(out)@ + row_text(texts(cells@), row_views(rows@), 6) + "\n"@,
{
    let ghost start = out@;
    let ghost row = texts(cells@);
    let ghost all = row_views(rows@);
    let mut i: usize = 0;
    proof {
        assert(start + row_text(row, all, 0) =~= start);
    }
    while i < 6
        invariant
            i <= 6,
            cells@.len() == 6,
            row == texts(cells@),
            all == row_views(rows@),
            forall|i: int| 0 <= i < rows@.len() ==> (#[trigger] rows@[i])@.len() == 6,
            out@ == start + row_text(row, all, i as nat),
        decreases 6 - i,
    {
        let ghost before = row_text(row, all, i as nat);
        if i > 0 {
            out.append("  ");
        }
        if i + 1 == 6 {
            out.append(cells[i].as_str());
        } else {
            let width: usize = width_of(rows, i);
            push_padded(out, cells[i].as_str(), width);
        }
        proof {
            let gap = if i > 0 {
                "  "@
            } else {
                Seq::empty()
            };
            let cell = if i == 5 {
                row[i as int]
            } else {
                padded(row[i as int], column_width(all, i as int))
            };
            assert(out@ =~= start + (before + gap + cell));
        }
        i += 1;
    }
    out.append("\n");
}

/// The heading of the table.
fn heading_cells() -> (r: Vec<String>)
    ensures
        texts(r@) == heading(),
        r@.len() == 6,
{
    let mut out: Vec<String> = Vec::new();
    out.push("NAME".to_owned());
    out.push("TYPE".to_owned());
    out.push("PROTO".to_owned());
    out.push("PORT".to_owned());
    out.push("HOST".to_owned());
    out.push("SOURCE".to_owned());
    proof {
        assert(texts(out@) =~= heading());
    }
    out
}

/// The cells of a row of the table.
fn cells_of(s: &ListedService) -> (r: Vec<String>)
    ensures
        texts(r@) == row_cells(s@),
        r@.len() == 6,
{
    let host = match &s.host {
        Some(h) => {
            if h.as_str().is_empty() {
                "-".to_owned()
            } else {
                h.copied()
            }
        },
        None => "-".to_owned(),
    };
    let mut out: Vec<String> = Vec::new();
    out.push(s.name.copied());
    out.push(s.type_.copied());
    out.push(s.protocol.copied());
    out.push(to_decimal(s.port as u64));
    out.push(host);
    out.push(s.source.as_str().to_owned());
    proof {
        assert(texts(out@) =~= row_cells(s@));
    }
    out
}

/// Human table: NAME, TYPE, PROTO, PORT, HOST, SOURCE (tabwriter-style).
pub fn print_human(services: &[ListedService]) -> (r: String)
    ensures
        r@ == table_text(table_rows(views(services@)), services@.len() + 1),
{
    let ghost all = table_rows(views(services@));
    let mut rows: Vec<Vec<String>> = Vec::new();
    rows.push(heading_cells());
    let mut i: usize = 0;
    while i < services.len()
        invariant
            i <= services@.len(),
            rows@.len() == i + 1,
            all == table_rows(views(services@)),
            forall|k: int| 0 <= k < rows@.len() ==> (#[trigger] rows@[k])@.len() == 6,
            forall|k: int| 0 <= k < rows@.len() ==> texts((#[trigger] rows@[k])@) == all[k],
        decreases services@.len() - i,
    {
        let cells = cells_of(&services[i]);
        proof {
            assert(all[i + 1] == row_cells(views(services@)[i as int]));
        }
        rows.push(cells);
        i += 1;
    }
    proof {
        assert(row_views(rows@) =~= all);
    }
    let mut out = String::new();
    let mut k: usize = 0;
    while k < rows.len()
        invariant
            k <= rows@.len() == services@.len() + 1,
            all == row_views(rows@),
            forall|k: int| 0 <= k < rows@.len() ==> (#[trigger] rows@[k])@.len() == 6,
            out@ == table_text(all, k as nat),
        decreases rows@.len() - k,
    {
        write_padded_row(&mut out, &rows[k], &rows);
        proof {
            assert(all[k as int] == texts(rows@[k as int]@));
        }
        k += 1;
    }
    out
}

/// The listing tells where each advertisement comes from: the configured ones
/// first, then those of the dcc-bus and of microinit, each with its entry.
pub proof fn listing_tells_the_origin(ads: DesiredView, i: int)
    requires
        0 <= i < ads.static_services.len() + ads.dynamic.len(),
    ensures
        ({
            let n = ads.static_services.len() as int;
            let row = listing(ads)[i];
            &&& listing(ads).len() == n + ads.dynamic.len()
            &&& i < n ==> row.source is Static && row.entry == ads.static_services[i]
            &&& i >= n ==> row.entry == ads.dynamic[i - n].entry
            &&& i >= n && ads.dynamic[i - n].source is DccBus ==> row.source is DccBus
            &&& i >= n && ads.dynamic[i - n].source is Microinit ==> row.source is Microinit
        }),
{
}

/// An announcement is so many whole seconds ago as have passed since then, and
/// none where the clock reads less.
pub proof fn ages_are_whole_seconds(at: u64, now: u64)
    ensures
        now >= at ==> secs_between(at, now) * 1_000_000_000 <= now - at < (secs_between(at, now) + 1)
            * 1_000_000_000,
        now < at ==> secs_between(at, now) == 0,
{
}

/// What `doctor` shows of a running daemon is what it knows of itself, together
/// with the listing.
pub proof fn doctor_shows_the_runtime(
    ads: DesiredView,
    rt: RuntimeState,
    now: u64,
    name: Seq<char>,
)
    ensures
        ({
            let d = doctor_of(ads, Some(rt), unchecked_report(), now);
            &&& d.services == listing(ads)
            &&& d.registered == texts(rt.registered@)
            &&& d.metrics == rt.metrics@
            &&& d.selfcheck == rt.selfcheck@
            &&& d.last_announce_secs_ago.contains_key(name) == rt.log@.contains_key(name)
            &&& rt.log@.contains_key(name) ==> d.last_announce_secs_ago[name] == secs_between(
                rt.log@[name],
                now,
            )
        }),
{
}

/// A row of the table shows the service, with a dash where it has no host, and
/// its origin.
pub proof fn rows_show_the_service(s: ListedView)
    ensures
        ({
            let cells = row_cells(s);
            &&& cells.len() == 6
            &&& cells[0] == s.entry.name && cells[1] == s.entry.type_
            &&& cells[2] == s.entry.protocol && cells[3] == decimal(s.entry.port as nat)
            &&& s.entry.host is Some && s.entry.host->0.len() > 0 ==> cells[4] == s.entry.host->0
            &&& s.entry.host is None || s.entry.host->0.len() == 0 ==> cells[4] == "-"@
            &&& s.source is Static ==> cells[5] == "static"@
            &&& s.source is DccBus ==> cells[5] == "dccBus"@
            &&& s.source is Microinit ==> cells[5] == "microinit"@
        }),
{
}

/// A column is as wide as its widest cell, so that every cell fits and one of
/// them fills it.
pub proof fn columns_fit_their_cells(rows: Seq<Seq<Seq<char>>>, col: int, i: int)
    requires
        0 <= i < rows.len(),
    ensures
        encode_utf8(rows[i][col]).len() <= column_width(rows, col),
        exists|k: int|
            0 <= k < rows.len() && encode_utf8((#[trigger] rows[k])[col]).len() == column_width(
                rows,
                col,
            ),
    decreases rows.len(),
{
    let d = rows.drop_last();
    let n = rows.len() - 1;
    let l = rows[n];
    assert(rows.last() == l);
    let here = encode_utf8(l[col]).len();
    if d.len() > 0 {
        let j = if i < n {
            i
        } else {
            0
        };
        columns_fit_their_cells(d, col, j);
        assert(d[j] == rows[j]);
        let k = choose|k: int|
            0 <= k < d.len() && encode_utf8((#[trigger] d[k])[col]).len() == column_width(d, col);
        assert(rows[k] == d[k]);
    } else {
        assert(column_width(d, col) == 0);
    }
    if here >= column_width(d, col) {
        assert(encode_utf8(rows[n][col]).len() == column_width(rows, col));
    }
}

} // verus!
