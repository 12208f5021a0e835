//! Configuration of the daemon (`$DATA_DIR/etc/microdns.json`) and its rules.

use vstd::prelude::*;

use crate::datadir::{below, path};
use crate::error::{Error, ErrorView};
use crate::order::{
    compare_text, text_less, text_less_total, text_less_transitive, Rank, Ranked,
};
use crate::text::{
    drop_chars, ends, ends_with, joined, lemma_strip_end, lemma_trimmed_same, lower, lowercase,
    same, split, split_char, split_joins_back, strip_end, texts, trim, trim_end_char, trimmed,
};
use crate::textmap::TextMap;
use crate::value::{copy_list, copy_option, list_has, opt_view, same_option, views, Value};

verus! {

/// Poll loco-server for dcc-bus programs and advertise their ports.
#[derive(Debug, PartialEq, Eq)]
pub struct BigFredConfig {
    /// Feature toggle; default **true**.
    pub enabled: bool,
    /// Override socket path. Empty / omitted → `$DATA_DIR/run/bigfred.sock`.
    pub socket: Option<String>,
}

/// Watch microinit for services labeled `microdns-port` / `microdns-type`.
#[derive(Debug, PartialEq, Eq)]
pub struct MicroinitConfig {
    /// Feature toggle; default **true**.
    pub enabled: bool,
    /// Override socket path. Empty / omitted → `$DATA_DIR/run/microinit.sock`.
    pub socket: Option<String>,
}

/// One static DNS-SD service entry.
#[derive(Debug, PartialEq, Eq)]
pub struct ServiceEntry {
    /// DNS-SD instance name.
    pub name: String,
    /// Service type, e.g. `_http._tcp`.
    pub type_: String,
    /// Transport protocol (`tcp` / `udp`); informational alongside `type`.
    pub protocol: String,
    pub port: u16,
    /// Optional hostname without `.local` (e.g. `bigfred` → `bigfred.local.`).
    pub host: Option<String>,
    /// Optional TXT record key/value pairs.
    pub txt: Option<TextMap<String>>,
}

/// Z21 LAN serial broadcast when a `_z21._udp` port is advertised.
#[derive(Debug, PartialEq, Eq)]
pub struct DccBusConfig {
    /// Broadcast LAN_GET_SERIAL_NUMBER reply when a Z21 port is advertised.
    pub beacon: bool,
    /// Optional DNS-SD hostname without `.local` for dcc-bus ads.
    pub host: Option<String>,
}

/// Quiet retry intervals (milliseconds).
#[derive(Debug, Clone, Copy, PartialEq, Eq, Structural)]
pub struct RetryConfig {
    /// Poll interval while the BigFred socket is answering.
    pub poll_ms: u64,
    pub mdns_ms: u64,
    pub iface_ms: u64,
    /// Retry interval when the BigFred socket is missing.
    pub bigfred_ms: u64,
    /// Reconnect backoff while the microinit watch socket is down.
    pub microinit_reconnect_ms: u64,
}

/// Unsolicited mDNS re-announcement (RFC 6762 §8.3 plus a periodic refresh).
#[derive(Debug, Clone, Copy, PartialEq, Eq, Structural)]
pub struct AnnounceConfig {
    /// Interval between full re-announcements of the current set (milliseconds).
    pub period_ms: u64,
    /// Extra announcements after a real advertisement change, at 1 s, 2 s, 4 s, …
    pub burst_count: u8,
}

/// Periodic self-verification of multicast membership and announcements.
#[derive(Debug, Clone, Copy, PartialEq, Eq, Structural)]
pub struct SelfCheckConfig {
    /// How often to verify membership and recent announcements (milliseconds).
    pub period_ms: u64,
}

/// Top-level configuration.
#[derive(Debug, PartialEq, Eq)]
pub struct Config {
    pub services: Vec<ServiceEntry>,
    pub bigfred: BigFredConfig,
    pub microinit: MicroinitConfig,
    pub dcc_bus: DccBusConfig,
    pub retry: RetryConfig,
    pub announce: AnnounceConfig,
    pub selfcheck: SelfCheckConfig,
    /// Extra interface name prefixes to skip (case-insensitive).
    pub skip_interfaces: Vec<String>,
    /// Optional allowlist of interface name prefixes (case-insensitive).
    pub interfaces: Vec<String>,
}

/// What a source switch with its socket stands for.
#[verifier::ext_equal]
pub struct SourceView {
    pub enabled: bool,
    pub socket: Option<Seq<char>>,
}

/// What a [`ServiceEntry`] stands for.
#[verifier::ext_equal]
pub struct EntryView {
    pub name: Seq<char>,
    pub type_: Seq<char>,
    pub protocol: Seq<char>,
    pub port: u16,
    pub host: Option<Seq<char>>,
    pub txt: Option<Map<Seq<char>, Seq<char>>>,
}

/// What a [`DccBusConfig`] stands for.
#[verifier::ext_equal]
pub struct DccBusView {
    pub beacon: bool,
    pub host: Option<Seq<char>>,
}

/// What a [`Config`] stands for.
#[verifier::ext_equal]
pub struct ConfigView {
    pub services: Seq<EntryView>,
    pub bigfred: SourceView,
    pub microinit: SourceView,
    pub dcc_bus: DccBusView,
    pub retry: RetryConfig,
    pub announce: AnnounceConfig,
    pub selfcheck: SelfCheckConfig,
    pub skip_interfaces: Seq<Seq<char>>,
    pub interfaces: Seq<Seq<char>>,
}

impl View for BigFredConfig {
    type V = SourceView;

    open spec fn view(&self) -> SourceView {
        SourceView { enabled: self.enabled, socket: opt_view(self.socket) }
    }
}

impl View for MicroinitConfig {
    type V = SourceView;

    open spec fn view(&self) -> SourceView {
        SourceView { enabled: self.enabled, socket: opt_view(self.socket) }
    }
}

impl View for ServiceEntry {
    type V = EntryView;

    open spec fn view(&self) -> EntryView {
        EntryView {
            name: self.name@,
            type_: self.type_@,
            protocol: self.protocol@,
            port: self.port,
            host: opt_view(self.host),
            txt: opt_view(self.txt),
        }
    }
}

impl View for DccBusConfig {
    type V = DccBusView;

    open spec fn view(&self) -> DccBusView {
        DccBusView { beacon: self.beacon, host: opt_view(self.host) }
    }
}

impl View for Config {
    type V = ConfigView;

    open spec fn view(&self) -> ConfigView {
        ConfigView {
            services: views(self.services@),
            bigfred: self.bigfred@,
            microinit: self.microinit@,
            dcc_bus: self.dcc_bus@,
            retry: self.retry,
            announce: self.announce,
            selfcheck: self.selfcheck,
            skip_interfaces: texts(self.skip_interfaces@),
            interfaces: texts(self.interfaces@),
        }
    }
}

impl Value for ServiceEntry {
    fn same(&self, other: &Self) -> (r: bool) {
        self.name.same(&other.name) && self.type_.same(&other.type_) && self.protocol.same(
            &other.protocol,
        ) && self.port == other.port && same_option(&self.host, &other.host) && same_option(
            &self.txt,
            &other.txt,
        )
    }

    fn copied(&self) -> (r: Self) {
        ServiceEntry {
            name: self.name.copied(),
            type_: self.type_.copied(),
            protocol: self.protocol.copied(),
            port: self.port,
            host: copy_option(&self.host),
            txt: copy_option(&self.txt),
        }
    }
}

impl Ranked for ServiceEntry {
    /// By name, then by type, then by port.
    open spec fn le(a: EntryView, b: EntryView) -> bool {
        ||| text_less(a.name, b.name)
        ||| a.name == b.name && text_less(a.type_, b.type_)
        ||| a.name == b.name && a.type_ == b.type_ && a.port <= b.port
    }

    proof fn le_total(a: EntryView, b: EntryView) {
        text_less_total(a.name, b.name);
        text_less_total(a.type_, b.type_);
    }

    proof fn le_transitive(a: EntryView, b: EntryView, c: EntryView) {
        if text_less(a.name, b.name) && text_less(b.name, c.name) {
            text_less_transitive(a.name, b.name, c.name);
        }
        if text_less(a.type_, b.type_) && text_less(b.type_, c.type_) {
            text_less_transitive(a.type_, b.type_, c.type_);
        }
    }

    fn at_most(&self, other: &Self) -> (r: bool) {
        proof {
            text_less_total(self.name@, other.name@);
            text_less_total(other.name@, self.name@);
            text_less_total(self.type_@, other.type_@);
            text_less_total(other.type_@, self.type_@);
        }
        match compare_text(self.name.as_str(), other.name.as_str()) {
            Rank::Less => true,
            Rank::Greater => false,
            Rank::Equal => match compare_text(self.type_.as_str(), other.type_.as_str()) {
                Rank::Less => true,
                Rank::Greater => false,
                Rank::Equal => self.port <= other.port,
            },
        }
    }
}

impl Clone for ServiceEntry {
    fn clone(&self) -> (r: Self)
        ensures
            r@ == self@,
    {
        self.copied()
    }
}

impl Clone for Config {
    fn clone(&self) -> (r: Self)
        ensures
            r@ == self@,
    {
        Config {
            services: copy_list(&self.services),
            bigfred: BigFredConfig {
                enabled: self.bigfred.enabled,
                socket: copy_option(&self.bigfred.socket),
            },
            microinit: MicroinitConfig {
                enabled: self.microinit.enabled,
                socket: copy_option(&self.microinit.socket),
            },
            dcc_bus: DccBusConfig {
                beacon: self.dcc_bus.beacon,
                host: copy_option(&self.dcc_bus.host),
            },
            retry: self.retry,
            announce: self.announce,
            selfcheck: self.selfcheck,
            skip_interfaces: copy_list(&self.skip_interfaces),
            interfaces: copy_list(&self.interfaces),
        }
    }
}

impl Default for BigFredConfig {
    fn default() -> (r: Self)
        ensures
            r@ == (SourceView { enabled: true, socket: None }),
    {
        BigFredConfig { enabled: true, socket: None }
    }
}

impl Default for MicroinitConfig {
    fn default() -> (r: Self)
        ensures
            r@ == (SourceView { enabled: true, socket: None }),
    {
        MicroinitConfig { enabled: true, socket: None }
    }
}

impl Default for DccBusConfig {
    fn default() -> (r: Self)
        ensures
            r@ == (DccBusView { beacon: true, host: None }),
    {
        DccBusConfig { beacon: true, host: None }
    }
}

/// The default intervals.
pub open spec fn default_retry() -> RetryConfig {
    RetryConfig {
        poll_ms: 25_000,
        mdns_ms: 3000,
        iface_ms: 5000,
        bigfred_ms: 45_000,
        microinit_reconnect_ms: 3000,
    }
}

impl Default for RetryConfig {
    fn default() -> (r: Self)
        ensures
            r == default_retry(),
    {
        RetryConfig {
            poll_ms: 25_000,
            mdns_ms: 3000,
            iface_ms: 5000,
            bigfred_ms: 45_000,
            microinit_reconnect_ms: 3000,
        }
    }
}

impl Default for AnnounceConfig {
    fn default() -> (r: Self)
        ensures
            r == (AnnounceConfig { period_ms: 55_000, burst_count: 4 }),
    {
        AnnounceConfig { period_ms: 55_000, burst_count: 4 }
    }
}

impl Default for SelfCheckConfig {
    fn default() -> (r: Self)
        ensures
            r == (SelfCheckConfig { period_ms: 60_000 }),
    {
        SelfCheckConfig { period_ms: 60_000 }
    }
}

/// The service of the default configuration.
pub open spec fn default_service() -> EntryView {
    EntryView {
        name: "bigfred"@,
        type_: "_http._tcp"@,
        protocol: "tcp"@,
        port: 8080,
        host: Some("bigfred"@),
        txt: Some(Map::<Seq<char>, Seq<char>>::empty().insert("path"@, "/"@)),
    }
}

/// The configuration where no file says otherwise.
pub open spec fn default_config() -> ConfigView {
    ConfigView {
        services: seq![default_service()],
        bigfred: SourceView { enabled: true, socket: None },
        microinit: SourceView { enabled: true, socket: None },
        dcc_bus: DccBusView { beacon: true, host: None },
        retry: default_retry(),
        announce: AnnounceConfig { period_ms: 55_000, burst_count: 4 },
        selfcheck: SelfCheckConfig { period_ms: 60_000 },
        skip_interfaces: Seq::empty(),
        interfaces: Seq::empty(),
    }
}

impl Default for Config {
    fn default() -> (r: Self)
        ensures
            r@ == default_config(),
    {
        let mut txt: TextMap<String> = TextMap::new();
        txt.insert("path".to_owned(), "/".to_owned());
        let entry = ServiceEntry {
            name: "bigfred".to_owned(),
            type_: "_http._tcp".to_owned(),
            protocol: "tcp".to_owned(),
            port: 8080,
            host: Some("bigfred".to_owned()),
            txt: Some(txt),
        };
        let mut services: Vec<ServiceEntry> = Vec::new();
        services.push(entry);
        let r = Config {
            services,
            bigfred: BigFredConfig::default(),
            microinit: MicroinitConfig::default(),
            dcc_bus: DccBusConfig::default(),
            retry: RetryConfig::default(),
            announce: AnnounceConfig::default(),
            selfcheck: SelfCheckConfig::default(),
            skip_interfaces: Vec::new(),
            interfaces: Vec::new(),
        };
        proof {
            assert(views(services@) =~= seq![default_service()]);
            assert(texts(r.skip_interfaces@) =~= Seq::empty());
            assert(texts(r.interfaces@) =~= Seq::empty());
        }
        r
    }
}

/// Default config path under the data root.
pub fn default_config_path(root: &str) -> (r: String)
    ensures
        r@ == below(below(root@, "etc"@), "microdns.json"@),
{
    path(root, "etc", "microdns.json")
}

/// BigFred loco-server control socket under the data root.
pub fn default_bigfred_socket(root: &str) -> (r: String)
    ensures
        r@ == below(below(root@, "run"@), "bigfred.sock"@),
{
    path(root, "run", "bigfred.sock")
}

/// Default microinit control socket under the data root.
pub fn default_microinit_socket(root: &str) -> (r: String)
    ensures
        r@ == below(below(root@, "run"@), "microinit.sock"@),
{
    path(root, "run", "microinit.sock")
}

/// A configured socket unless it is blank, else the default one.
pub open spec fn socket_or(socket: Option<Seq<char>>, default: Seq<char>) -> Seq<char> {
    match socket {
        Some(s) if trimmed(s).len() > 0 => s,
        _ => default,
    }
}

/// Whether a socket override is given and not blank.
fn override_of(socket: &Option<String>) -> (r: Option<String>)
    ensures
        opt_view(r) == (match opt_view(*socket) {
            Some(s) if trimmed(s).len() > 0 => Some(s),
            _ => None,
        }),
{
    match socket {
        Some(s) => {
            if trim(s.as_str()).as_str().is_empty() {
                None
            } else {
                Some(s.copied())
            }
        },
        None => None,
    }
}

impl BigFredConfig {
    /// Resolved control-socket path.
    pub fn socket_path(&self, root: &str) -> (r: String)
        ensures
            r@ == socket_or(self@.socket, below(below(root@, "run"@), "bigfred.sock"@)),
    {
        match override_of(&self.socket) {
            Some(s) => s,
            None => default_bigfred_socket(root),
        }
    }
}

impl MicroinitConfig {
    /// Resolved control-socket path.
    pub fn socket_path(&self, root: &str) -> (r: String)
        ensures
            r@ == socket_or(self@.socket, below(below(root@, "run"@), "microinit.sock"@)),
    {
        match override_of(&self.socket) {
            Some(s) => s,
            None => default_microinit_socket(root),
        }
    }
}

/// A text without white space around, if anything is left of it.
pub open spec fn non_blank(s: Option<Seq<char>>) -> Option<Seq<char>> {
    match s {
        Some(t) if trimmed(t).len() > 0 => Some(trimmed(t)),
        _ => None,
    }
}

impl DccBusConfig {
    /// Trimmed non-empty `host`, if configured.
    pub fn advertised_host(&self) -> (r: Option<String>)
        ensures
            opt_view(r) == non_blank(self@.host),
    {
        match &self.host {
            Some(h) => {
                let t = trim(h.as_str());
                if t.as_str().is_empty() {
                    None
                } else {
                    Some(t)
                }
            },
            None => None,
        }
    }
}

/// A service type without trailing dots and without the domain.
pub open spec fn type_base(type_: Seq<char>) -> Seq<char> {
    let t = strip_end(trimmed(type_), '.');
    if ends(t, ".local"@) {
        t.take(t.len() - 6)
    } else {
        t
    }
}

/// A service type without trailing dots and without the domain.
fn base_of(type_: &str) -> (r: String)
    ensures
        r@ == type_base(type_@),
{
    let t = trim_end_char(trim(type_).as_str(), '.');
    if ends_with(t.as_str(), ".local") {
        proof {
            reveal_strlit(".local");
        }
        drop_chars(t.as_str(), 6)
    } else {
        t
    }
}

/// What is wrong with a service type, if anything: it is to be `_name._tcp` or
/// `_name._udp`, optionally with a `.local` suffix.
pub open spec fn type_fault(name: Seq<char>, type_: Seq<char>) -> Option<Seq<char>> {
    let parts = split(type_base(type_), '.');
    let head = "service '"@ + name + "': type '"@ + type_;
    if type_.len() == 0 {
        Some("service '"@ + name + "': type must not be empty"@)
    } else if parts.len() != 2 {
        Some(head + "' must look like _http._tcp or _z21._udp"@)
    } else if parts[0].len() < 2 || parts[0][0] != '_' {
        Some(head + "' service label must start with '_'"@)
    } else if parts[1] != "_tcp"@ && parts[1] != "_udp"@ {
        Some(head + "' transport must be _tcp or _udp"@)
    } else {
        None
    }
}

/// What is wrong with the protocol of a service, if anything: it is to be tcp
/// or udp, and that of the type where the type names one.
pub open spec fn protocol_fault(name: Seq<char>, type_: Seq<char>, protocol: Seq<char>) -> Option<
    Seq<char>,
> {
    let proto = lower(trimmed(protocol));
    if proto != "tcp"@ && proto != "udp"@ {
        Some("service '"@ + name + "': protocol must be tcp or udp"@)
    } else {
        match type_protocol(type_) {
            Some(expected) if proto != expected => Some(
                "service '"@ + name + "': protocol '"@ + protocol + "' does not match type '"@
                    + type_ + "'"@,
            ),
            _ => None,
        }
    }
}

/// The protocol that a service type names.
pub open spec fn type_protocol(type_: Seq<char>) -> Option<Seq<char>> {
    let base = type_base(type_);
    if ends(base, "._tcp"@) {
        Some("tcp"@)
    } else if ends(base, "._udp"@) {
        Some("udp"@)
    } else {
        None
    }
}

/// What is wrong with the service at `i`, if anything.
pub open spec fn service_fault(services: Seq<EntryView>, i: int) -> Option<Seq<char>> {
    let s = services[i];
    if s.name.len() == 0 {
        Some("service name must not be empty"@)
    } else if exists|j: int| 0 <= j < i && (#[trigger] services[j]).name == s.name {
        Some("duplicate service name '"@ + s.name + "'"@)
    } else if type_fault(s.name, s.type_) is Some {
        type_fault(s.name, s.type_)
    } else if protocol_fault(s.name, s.type_, s.protocol) is Some {
        protocol_fault(s.name, s.type_, s.protocol)
    } else if s.port == 0 {
        Some("service '"@ + s.name + "': port must be non-zero"@)
    } else {
        None
    }
}

/// What is wrong with the first service among the first `n` that has a fault.
pub open spec fn services_fault(services: Seq<EntryView>, n: nat) -> Option<Seq<char>>
    decreases n,
{
    if n == 0 {
        None
    } else {
        match services_fault(services, (n - 1) as nat) {
            Some(m) => Some(m),
            None => service_fault(services, n - 1),
        }
    }
}

/// What is wrong with the entry at `i` of a list of interface prefixes.
pub open spec fn prefix_fault(field: Seq<char>, entries: Seq<Seq<char>>, i: int) -> Option<
    Seq<char>,
> {
    let t = trimmed(entries[i]);
    if t.len() == 0 {
        Some(field + ": entries must not be empty"@)
    } else if exists|j: int| 0 <= j < i && lower(trimmed(#[trigger] entries[j])) == lower(t) {
        Some(field + ": duplicate prefix '"@ + t + "'"@)
    } else {
        None
    }
}

/// What is wrong with the first of the first `n` interface prefixes that has a fault.
pub open spec fn prefixes_fault(field: Seq<char>, entries: Seq<Seq<char>>, n: nat) -> Option<
    Seq<char>,
>
    decreases n,
{
    if n == 0 {
        None
    } else {
        match prefixes_fault(field, entries, (n - 1) as nat) {
            Some(m) => Some(m),
            None => prefix_fault(field, entries, n - 1),
        }
    }
}

/// What is wrong with a configuration, if anything: the first rule it breaks.
pub open spec fn config_fault(c: ConfigView) -> Option<Seq<char>> {
    if services_fault(c.services, c.services.len()) is Some {
        services_fault(c.services, c.services.len())
    } else if prefixes_fault("skipInterfaces"@, c.skip_interfaces, c.skip_interfaces.len())
        is Some {
        prefixes_fault("skipInterfaces"@, c.skip_interfaces, c.skip_interfaces.len())
    } else if prefixes_fault("interfaces"@, c.interfaces, c.interfaces.len()) is Some {
        prefixes_fault("interfaces"@, c.interfaces, c.interfaces.len())
    } else if c.announce.period_ms < 1000 {
        Some("announce.periodMs must be at least 1000"@)
    } else if c.announce.burst_count > 8 {
        Some("announce.burstCount must be at most 8"@)
    } else if c.selfcheck.period_ms < 1000 {
        Some("selfcheck.periodMs must be at least 1000"@)
    } else {
        None
    }
}

/// The outcome of a check: a configuration error where there is a fault.
pub open spec fn checked(r: Result<(), Error>, fault: Option<Seq<char>>) -> bool {
    match r {
        Ok(_) => fault is None,
        Err(e) => fault is Some && e@ == ErrorView::Config(fault->0),
    }
}

/// Accept `_name._tcp` / `_name._udp`, optionally with a `.local` suffix.
pub fn validate_service_type(name: &str, type_: &str) -> (r: Result<(), Error>)
    ensures
        checked(r, type_fault(name@, type_@)),
{
    let mut head = "service '".to_owned();
    head.append(name);
    if type_.is_empty() {
        head.append("': type must not be empty");
        return Err(Error::Config(head));
    }
    head.append("': type '");
    head.append(type_);
    let base = base_of(type_);
    let parts = split_char(base.as_str(), '.');
    let ghost all = texts(parts@);
    if parts.len() != 2 {
        assert(all.len() != 2);
        head.append("' must look like _http._tcp or _z21._udp");
        return Err(Error::Config(head));
    }
    let svc = crate::text::chars_of(parts[0].as_str());
    assert(svc@ == all[0]);
    assert(parts@[1]@ == all[1]);
    if svc.len() < 2 || svc[0] != '_' {
        head.append("' service label must start with '_'");
        return Err(Error::Config(head));
    }
    if !same(parts[1].as_str(), "_tcp") && !same(parts[1].as_str(), "_udp") {
        head.append("' transport must be _tcp or _udp");
        return Err(Error::Config(head));
    }
    Ok(())
}

/// `tcp` / `udp` from a DNS-SD type, or `None` if the type names neither.
pub fn protocol_from_type(type_: &str) -> (r: Option<&'static str>)
    ensures
        match r {
            Some(p) => type_protocol(type_@) == Some(p@),
            None => type_protocol(type_@) is None,
        },
{
    let base = base_of(type_);
    if ends_with(base.as_str(), "._tcp") {
        Some("tcp")
    } else if ends_with(base.as_str(), "._udp") {
        Some("udp")
    } else {
        None
    }
}

/// Accept tcp or udp, in agreement with the service type.
pub fn validate_protocol(name: &str, type_: &str, protocol: &str) -> (r: Result<(), Error>)
    ensures
        checked(r, protocol_fault(name@, type_@, protocol@)),
{
    let proto = lowercase(trim(protocol).as_str());
    let mut head = "service '".to_owned();
    head.append(name);
    if !same(proto.as_str(), "tcp") && !same(proto.as_str(), "udp") {
        head.append("': protocol must be tcp or udp");
        return Err(Error::Config(head));
    }
    match protocol_from_type(type_) {
        None => Ok(()),
        Some(expected) => {
            if same(proto.as_str(), expected) {
                Ok(())
            } else {
                head.append("': protocol '");
                head.append(protocol);
                head.append("' does not match type '");
                head.append(type_);
                head.append("'");
                Err(Error::Config(head))
            }
        },
    }
}

/// Accept interface prefixes that are not blank and, in lower case, differ.
pub fn validate_iface_prefixes(field: &str, entries: &[String]) -> (r: Result<(), Error>)
    ensures
        checked(r, prefixes_fault(field@, texts(entries@), entries@.len())),
{
    let ghost all = texts(entries@);
    let mut seen: Vec<String> = Vec::new();
    let mut i: usize = 0;
    let n: usize = entries.len();
    while i < n
        invariant
            n == entries@.len(),
            i <= n,
            all == texts(entries@),
            prefixes_fault(field@, all, i as nat) is None,
            seen@.len() == i,
            forall|k: int| 0 <= k < i ==> (#[trigger] views(seen@)[k]) == lower(trimmed(all[k])),
        decreases n - i,
    {
        let t = trim(entries[i].as_str());
        let ghost fault = prefix_fault(field@, all, i as int);
        proof {
            assert(prefixes_fault(field@, all, (i + 1) as nat) == fault);
        }
        if t.as_str().is_empty() {
            let mut m = field.to_owned();
            m.append(": entries must not be empty");
            proof {
                lemma_prefixes_fault(field@, all, (i + 1) as nat, n as nat);
            }
            return Err(Error::Config(m));
        }
        let key = lowercase(t.as_str());
        let found = list_has(&seen, &key);
        proof {
            let has = exists|j: int|
                0 <= j < i && lower(trimmed(#[trigger] all[j])) == lower(trimmed(all[i as int]));
            if has {
                let j = choose|j: int|
                    0 <= j < i && lower(trimmed(#[trigger] all[j])) == lower(
                        trimmed(all[i as int]),
                    );
                assert(views(seen@)[j] == key@);
            }
            if found {
                let j = choose|j: int| 0 <= j < views(seen@).len() && views(seen@)[j] == key@;
                assert(lower(trimmed(all[j])) == key@);
            }
            assert(found == has);
        }
        if found {
            let mut m = field.to_owned();
            m.append(": duplicate prefix '");
            m.append(t.as_str());
            m.append("'");
            proof {
                lemma_prefixes_fault(field@, all, (i + 1) as nat, n as nat);
            }
            return Err(Error::Config(m));
        }
        let ghost before = views(seen@);
        seen.push(key);
        proof {
            assert(views(seen@) =~= before.push(key@));
        }
        i += 1;
    }
    Ok(())
}

/// A fault found early is the fault of the whole list.
proof fn lemma_prefixes_fault(field: Seq<char>, entries: Seq<Seq<char>>, k: nat, n: nat)
    requires
        k <= n,
        prefixes_fault(field, entries, k) is Some,
    ensures
        prefixes_fault(field, entries, n) == prefixes_fault(field, entries, k),
    decreases n,
{
    if k < n {
        lemma_prefixes_fault(field, entries, k, (n - 1) as nat);
    }
}

/// A fault found early is the fault of the whole list.
proof fn lemma_services_fault(services: Seq<EntryView>, k: nat, n: nat)
    requires
        k <= n,
        services_fault(services, k) is Some,
    ensures
        services_fault(services, n) == services_fault(services, k),
    decreases n,
{
    if k < n {
        lemma_services_fault(services, k, (n - 1) as nat);
    }
}

/// Accept services with distinct names, sound types, matching protocols and
/// ports other than zero.
fn validate_services(services: &[ServiceEntry]) -> (r: Result<(), Error>)
    ensures
        checked(r, services_fault(views(services@), services@.len())),
{
    let ghost all = views(services@);
    let mut names: Vec<String> = Vec::new();
    let mut i: usize = 0;
    let n: usize = services.len();
    while i < n
        invariant
            n == services@.len(),
            i <= n,
            all == views(services@),
            services_fault(all, i as nat) is None,
            names@.len() == i,
            forall|k: int| 0 <= k < i ==> (#[trigger] views(names@)[k]) == all[k].name,
        decreases n - i,
    {
        let svc = &services[i];
        let ghost fault = service_fault(all, i as int);
        proof {
            assert(all[i as int] == svc@);
            assert(services_fault(all, (i + 1) as nat) == fault);
            if fault is Some {
                lemma_services_fault(all, (i + 1) as nat, n as nat);
            }
        }
        if svc.name.as_str().is_empty() {
            return Err(Error::Config("service name must not be empty".to_owned()));
        }
        let found = list_has(&names, &svc.name);
        proof {
            let has = exists|j: int| 0 <= j < i && (#[trigger] all[j]).name == all[i as int].name;
            if has {
                let j = choose|j: int|
                    0 <= j < i && (#[trigger] all[j]).name == all[i as int].name;
                assert(views(names@)[j] == svc.name@);
            }
            if found {
                let j = choose|j: int|
                    0 <= j < views(names@).len() && views(names@)[j] == svc.name@;
                assert(all[j].name == svc.name@);
            }
            assert(found == has);
        }
        if found {
            let mut m = "duplicate service name '".to_owned();
            m.append(svc.name.as_str());
            m.append("'");
            return Err(Error::Config(m));
        }
        let ghost before = views(names@);
        names.push(svc.name.copied());
        proof {
            assert(views(names@) =~= before.push(svc.name@));
        }
        match validate_service_type(svc.name.as_str(), svc.type_.as_str()) {
            Ok(_) => {},
            Err(e) => {
                return Err(e);
            },
        }
        match validate_protocol(svc.name.as_str(), svc.type_.as_str(), svc.protocol.as_str()) {
            Ok(_) => {},
            Err(e) => {
                return Err(e);
            },
        }
        if svc.port == 0 {
            let mut m = "service '".to_owned();
            m.append(svc.name.as_str());
            m.append("': port must be non-zero");
            return Err(Error::Config(m));
        }
        i += 1;
    }
    Ok(())
}

impl Config {
    /// Checks the rules of the configuration, in order; the error names the
    /// first that is broken.
    pub fn validate(&self) -> (r: Result<(), Error>)
        ensures
            checked(r, config_fault(self@)),
    {
        match validate_services(&self.services) {
            Ok(_) => {},
            Err(e) => {
                return Err(e);
            },
        }
        match validate_iface_prefixes("skipInterfaces", &self.skip_interfaces) {
            Ok(_) => {},
            Err(e) => {
                return Err(e);
            },
        }
        match validate_iface_prefixes("interfaces", &self.interfaces) {
            Ok(_) => {},
            Err(e) => {
                return Err(e);
            },
        }
        if self.announce.period_ms < 1000 {
            return Err(Error::Config("announce.periodMs must be at least 1000".to_owned()));
        }
        if self.announce.burst_count > 8 {
            return Err(Error::Config("announce.burstCount must be at most 8".to_owned()));
        }
        if self.selfcheck.period_ms < 1000 {
            return Err(Error::Config("selfcheck.periodMs must be at least 1000".to_owned()));
        }
        Ok(())
    }
}

/// A configuration that passes has services with distinct names that are not
/// empty, sound types and ports other than zero, and sane intervals.
pub proof fn valid_config_is_sound(c: ConfigView, i: int)
    requires
        config_fault(c) is None,
        0 <= i < c.services.len(),
    ensures
        c.services[i].name.len() > 0,
        forall|j: int| 0 <= j < i ==> (#[trigger] c.services[j]).name != c.services[i].name,
        type_fault(c.services[i].name, c.services[i].type_) is None,
        protocol_fault(c.services[i].name, c.services[i].type_, c.services[i].protocol) is None,
        c.services[i].port != 0,
        c.announce.period_ms >= 1000,
        c.announce.burst_count <= 8,
        c.selfcheck.period_ms >= 1000,
{
    lemma_no_fault(c.services, c.services.len(), i);
}

/// Where no service has a fault, the one at `i` has none.
proof fn lemma_no_fault(services: Seq<EntryView>, n: nat, i: int)
    requires
        services_fault(services, n) is None,
        0 <= i < n,
    ensures
        service_fault(services, i) is None,
    decreases n,
{
    if i < n - 1 {
        lemma_no_fault(services, (n - 1) as nat, i);
    }
}

/// A text of one piece before a dot, and one behind.
proof fn lemma_split_two(a: Seq<char>, b: Seq<char>)
    requires
        !a.contains('.'),
        !b.contains('.'),
    ensures
        split(a + seq!['.'] + b, '.') == seq![a, b],
    decreases b.len(),
{
    if b.len() == 0 {
        lemma_split_one(a);
        let s = a + seq!['.'] + b;
        assert(s.drop_last() =~= a);
        assert(b =~= Seq::empty());
        assert(split(s, '.') =~= seq![a, b]);
    } else {
        let d = b.drop_last();
        assert(!d.contains('.')) by {
            if d.contains('.') {
                let k = choose|k: int| 0 <= k < d.len() && d[k] == '.';
                assert(b[k] == '.');
            }
        }
        lemma_split_two(a, d);
        let s = a + seq!['.'] + b;
        assert(s.drop_last() =~= a + seq!['.'] + d);
        assert(s.last() == b.last() && b[b.len() - 1] == b.last());
        assert(d.push(b.last()) =~= b);
        assert(split(s, '.') =~= seq![a, b]);
    }
}

/// A text without a dot is one piece.
proof fn lemma_split_one(a: Seq<char>)
    requires
        !a.contains('.'),
    ensures
        split(a, '.') == seq![a],
    decreases a.len(),
{
    if a.len() == 0 {
        assert(a =~= Seq::empty());
        assert(split(a, '.') =~= seq![a]);
    } else {
        let d = a.drop_last();
        assert(!d.contains('.')) by {
            if d.contains('.') {
                let k = choose|k: int| 0 <= k < d.len() && d[k] == '.';
                assert(a[k] == '.');
            }
        }
        lemma_split_one(d);
        assert(a[a.len() - 1] == a.last());
        assert(d.push(a.last()) =~= a);
        assert(split(a, '.') =~= seq![a]);
    }
}

/// The default configuration passes.
pub proof fn default_config_is_valid()
    ensures
        config_fault(default_config()) is None,
{
    let c = default_config();
    let e = default_service();
    reveal_strlit("bigfred");
    reveal_strlit("_http._tcp");
    reveal_strlit("_http");
    reveal_strlit("_tcp");
    reveal_strlit("._tcp");
    reveal_strlit("tcp");
    reveal_strlit(".local");
    let t = e.type_;
    lemma_trimmed_same(t);
    lemma_strip_end(t, '.');
    assert(!ends(t, ".local"@)) by {
        assert(t.skip(t.len() - 6)[0] == 'p');
    }
    assert(type_base(t) == t);
    assert(t =~= "_http"@ + seq!['.'] + "_tcp"@);
    lemma_split_two("_http"@, "_tcp"@);
    assert(split(type_base(t), '.')[0] == "_http"@);
    assert(split(type_base(t), '.')[1] == "_tcp"@);
    assert(ends(t, "._tcp"@)) by {
        assert(t.skip(t.len() - 5) =~= "._tcp"@);
    }
    lemma_trimmed_same("tcp"@);
    assert(lower("tcp"@) =~= "tcp"@);
    assert(service_fault(c.services, 0) is None);
    assert(services_fault(c.services, 0) is None);
    assert(services_fault(c.services, 1) is None);
    assert(prefixes_fault("skipInterfaces"@, c.skip_interfaces, 0) is None);
    assert(prefixes_fault("interfaces"@, c.interfaces, 0) is None);
}

/// A valid service type names its protocol.
pub proof fn valid_type_has_protocol(name: Seq<char>, type_: Seq<char>)
    requires
        type_fault(name, type_) is None,
    ensures
        type_protocol(type_) is Some,
{
    reveal_strlit("_tcp");
    reveal_strlit("_udp");
    reveal_strlit("._tcp");
    reveal_strlit("._udp");
    let base = type_base(type_);
    let parts = split(base, '.');
    split_joins_back(base, '.');
    assert(parts.drop_last() =~= seq![parts[0]]);
    assert(joined(parts.drop_last(), seq!['.']) == parts[0]);
    assert(base =~= parts[0] + seq!['.'] + parts[1]);
    if parts[1] == "_tcp"@ {
        assert(base.skip(base.len() - 5) =~= "._tcp"@);
    } else {
        assert(base.skip(base.len() - 5) =~= "._udp"@);
    }
}

/// A type is sound exactly if, without the domain, it is a label that begins
/// with an underscore and has something behind it, a dot, and `_tcp` or `_udp`.
pub proof fn sound_types_have_two_labels(name: Seq<char>, type_: Seq<char>)
    ensures
        type_fault(name, type_) is None <==> type_.len() > 0 && exists|label: Seq<char>|
            {
                &&& label.len() >= 2
                &&& label[0] == '_'
                &&& !label.contains('.')
                &&& type_base(type_) == #[trigger] (label + "._tcp"@) || type_base(type_) == label
                    + "._udp"@
            },
{
    reveal_strlit("_tcp");
    reveal_strlit("_udp");
    reveal_strlit("._tcp");
    reveal_strlit("._udp");
    let base = type_base(type_);
    let parts = split(base, '.');
    if type_fault(name, type_) is None {
        split_joins_back(base, '.');
        assert(parts.drop_last() =~= seq![parts[0]]);
        assert(joined(parts.drop_last(), seq!['.']) == parts[0]);
        assert(base =~= parts[0] + seq!['.'] + parts[1]);
        lemma_no_dot_inside(base, 0);
        if parts[1] == "_tcp"@ {
            assert(base =~= parts[0] + "._tcp"@);
        } else {
            assert(base =~= parts[0] + "._udp"@);
            assert(base == (parts[0] + "._udp"@));
            let label = parts[0];
            assert(type_base(type_) == label + "._tcp"@ || type_base(type_) == label + "._udp"@);
        }
    }
    if type_.len() > 0 && exists|label: Seq<char>|
        {
            &&& label.len() >= 2
            &&& label[0] == '_'
            &&& !label.contains('.')
            &&& type_base(type_) == #[trigger] (label + "._tcp"@) || type_base(type_) == label
                + "._udp"@
        } {
        let label = choose|label: Seq<char>|
            {
                &&& label.len() >= 2
                &&& label[0] == '_'
                &&& !label.contains('.')
                &&& type_base(type_) == #[trigger] (label + "._tcp"@) || type_base(type_) == label
                    + "._udp"@
            };
        lemma_split_two(label, "_tcp"@);
        lemma_split_two(label, "_udp"@);
        assert(label + seq!['.'] + "_tcp"@ =~= label + "._tcp"@);
        assert(label + seq!['.'] + "_udp"@ =~= label + "._udp"@);
        assert("_tcp"@[0] != "_udp"@[0] || "_tcp"@[1] != "_udp"@[1]);
    }
}

/// No piece between dots has a dot.
proof fn lemma_no_dot_inside(s: Seq<char>, i: int)
    requires
        0 <= i < split(s, '.').len(),
    ensures
        !split(s, '.')[i].contains('.'),
    decreases s.len(),
{
    let parts = split(s, '.');
    if s.len() > 0 {
        let d = s.drop_last();
        let before = split(d, '.');
        crate::text::lemma_pieces_nonempty(d, crate::text::only('.'));
        if s.last() == '.' {
            if i < before.len() {
                lemma_no_dot_inside(d, i);
            }
        } else if i < before.len() - 1 {
            lemma_no_dot_inside(d, i);
        } else {
            lemma_no_dot_inside(d, before.len() - 1);
            let last = before.last();
            assert(parts[i] == last.push(s.last()));
            if parts[i].contains('.') {
                let k = choose|k: int| 0 <= k < parts[i].len() && parts[i][k] == '.';
                assert(last[k] == '.');
            }
        }
    }
}

/// The domain, the dots behind it and white space around it do not count as
/// part of a type or host, and nothing else is taken away.
pub proof fn domain_is_optional(t: Seq<char>)
    requires
        t.len() > 0,
        !crate::text::white(t[0]),
        !crate::text::white(t.last()),
        t.last() != '.',
    ensures
        !ends(t, ".local"@) ==> type_base(t) == t,
        type_base(t + ".local"@) == t,
        type_base(t + ".local."@) == t,
        !ends(t, ".local"@) ==> type_base(t.push('.')) == t,
        !ends(t, ".local"@) ==> type_base(seq![' '] + t + seq![' ']) == t,
{
    reveal_strlit(".local");
    reveal_strlit(".local.");
    lemma_trimmed_same(t);
    lemma_strip_end(t, '.');
    let u = t + ".local"@;
    assert(u.last() == 'l' && u[0] == t[0]);
    lemma_trimmed_same(u);
    lemma_strip_end(u, '.');
    assert(u.skip(u.len() - 6) =~= ".local"@);
    assert(u.take(u.len() - 6) =~= t);
    let v = t + ".local."@;
    assert(v =~= u.push('.'));
    assert(v.last() == '.' && v[0] == t[0]);
    lemma_trimmed_same(v);
    let w = t.push('.');
    assert(w.last() == '.' && w[0] == t[0]);
    lemma_trimmed_same(w);
    let x = seq![' '] + t + seq![' '];
    let y = t.push(' ');
    assert(x.skip(1) =~= y);
    assert(y.drop_last() =~= t);
    assert(y[0] == t[0]);
    crate::text::lemma_trim_start(y);
    crate::text::lemma_trim_end(t);
    assert(crate::text::trim_start(x) == crate::text::trim_start(y));
    assert(crate::text::trim_end(y) == crate::text::trim_end(t));
    assert(trimmed(x) == t);
}

/// The protocol that a type names is that of its last label.
pub proof fn types_name_their_protocol(label: Seq<char>)
    requires
        label.len() > 0,
        !crate::text::white(label[0]),
    ensures
        type_protocol(label + "._tcp"@) == Some("tcp"@),
        type_protocol(label + "._udp"@) == Some("udp"@),
{
    reveal_strlit("._tcp");
    reveal_strlit("._udp");
    reveal_strlit(".local");
    let t = label + "._tcp"@;
    let u = label + "._udp"@;
    assert(t.last() == 'p' && u.last() == 'p' && t[0] == label[0] && u[0] == label[0]);
    assert(!ends(t, ".local"@)) by {
        if ends(t, ".local"@) {
            assert(t.skip(t.len() - 6)[5] == 'p');
        }
    }
    assert(!ends(u, ".local"@)) by {
        if ends(u, ".local"@) {
            assert(u.skip(u.len() - 6)[5] == 'p');
        }
    }
    domain_is_optional(t);
    domain_is_optional(u);
    assert(t.skip(t.len() - 5) =~= "._tcp"@);
    assert(u.skip(u.len() - 5) =~= "._udp"@);
    assert(!ends(u, "._tcp"@)) by {
        if ends(u, "._tcp"@) {
            assert(u.skip(u.len() - 5)[2] == 'u');
        }
    }
}

/// A protocol is sound exactly if it is tcp or udp, whatever the case and the
/// white space around it, and is the one that the type names where it names
/// one.
pub proof fn sound_protocols_match_the_type(
    name: Seq<char>,
    type_: Seq<char>,
    protocol: Seq<char>,
)
    ensures
        protocol_fault(name, type_, protocol) is None <==> {
            let p = lower(trimmed(protocol));
            &&& p == "tcp"@ || p == "udp"@
            &&& type_protocol(type_) is Some ==> type_protocol(type_)->0 == p
        },
{
}

/// A configuration passes exactly if its services have names, no two of them
/// the same, sound types and protocols and ports other than zero, if the
/// prefixes of both interface lists are not blank and differ whatever the case,
/// and if the intervals are at least a second and a burst has at most eight
/// announcements.
pub proof fn passing_is_exact(c: ConfigView)
    ensures
        config_fault(c) is None <==> {
            &&& forall|i: int|
                0 <= i < c.services.len() ==> {
                    let s = #[trigger] c.services[i];
                    &&& s.name.len() > 0
                    &&& type_fault(s.name, s.type_) is None
                    &&& protocol_fault(s.name, s.type_, s.protocol) is None
                    &&& s.port != 0
                }
            &&& forall|i: int, j: int|
                0 <= i < j < c.services.len() ==> (#[trigger] c.services[i]).name != (
                #[trigger] c.services[j]).name
            &&& good_prefixes(c.skip_interfaces)
            &&& good_prefixes(c.interfaces)
            &&& c.announce.period_ms >= 1000
            &&& c.announce.burst_count <= 8
            &&& c.selfcheck.period_ms >= 1000
        },
{
    lemma_services_pass(c.services, c.services.len());
    lemma_prefixes_pass("skipInterfaces"@, c.skip_interfaces, c.skip_interfaces.len());
    lemma_prefixes_pass("interfaces"@, c.interfaces, c.interfaces.len());
}

/// Whether prefixes are not blank and differ whatever the case.
pub open spec fn good_prefixes(entries: Seq<Seq<char>>) -> bool {
    &&& forall|i: int| 0 <= i < entries.len() ==> trimmed(#[trigger] entries[i]).len() > 0
    &&& forall|i: int, j: int|
        0 <= i < j < entries.len() ==> lower(trimmed(#[trigger] entries[i])) != lower(
            trimmed(#[trigger] entries[j]),
        )
}

/// When the first `n` services pass.
proof fn lemma_services_pass(services: Seq<EntryView>, n: nat)
    requires
        n <= services.len(),
    ensures
        services_fault(services, n) is None <==> {
            &&& forall|i: int|
                0 <= i < n ==> {
                    let s = #[trigger] services[i];
                    &&& s.name.len() > 0
                    &&& type_fault(s.name, s.type_) is None
                    &&& protocol_fault(s.name, s.type_, s.protocol) is None
                    &&& s.port != 0
                }
            &&& forall|i: int, j: int|
                0 <= i < j < n ==> (#[trigger] services[i]).name != (#[trigger] services[j]).name
        },
    decreases n,
{
    if n > 0 {
        lemma_services_pass(services, (n - 1) as nat);
        let l = services[n - 1];
        assert(service_fault(services, n - 1) is None <==> l.name.len() > 0 && (forall|j: int|
            0 <= j < n - 1 ==> (#[trigger] services[j]).name != l.name) && type_fault(
            l.name,
            l.type_,
        ) is None && protocol_fault(l.name, l.type_, l.protocol) is None && l.port != 0);
    }
}

/// When the first `n` prefixes pass.
proof fn lemma_prefixes_pass(field: Seq<char>, entries: Seq<Seq<char>>, n: nat)
    requires
        n <= entries.len(),
    ensures
        prefixes_fault(field, entries, n) is None <==> {
            &&& forall|i: int| 0 <= i < n ==> trimmed(#[trigger] entries[i]).len() > 0
            &&& forall|i: int, j: int|
                0 <= i < j < n ==> lower(trimmed(#[trigger] entries[i])) != lower(
                    trimmed(#[trigger] entries[j]),
                )
        },
    decreases n,
{
    if n > 0 {
        lemma_prefixes_pass(field, entries, (n - 1) as nat);
        let l = entries[n - 1];
        assert(prefix_fault(field, entries, n - 1) is None <==> trimmed(l).len() > 0 && (forall|
            j: int,
        |
            0 <= j < n - 1 ==> lower(trimmed(#[trigger] entries[j])) != lower(trimmed(l))));
    }
}

/// A fault names the rule that is broken first: a service without a name before
/// one with a name that occurs twice, and so on in the order of the rules.
pub proof fn faults_name_the_broken_rule(services: Seq<EntryView>, i: int, field: Seq<char>)
    requires
        0 <= i < services.len(),
    ensures
        ({
            let s = services[i];
            let twice = exists|j: int| 0 <= j < i && (#[trigger] services[j]).name == s.name;
            let fault = service_fault(services, i);
            &&& s.name.len() == 0 ==> fault == Some("service name must not be empty"@)
            &&& s.name.len() > 0 && twice ==> fault == Some(
                "duplicate service name '"@ + s.name + "'"@,
            )
            &&& s.name.len() > 0 && !twice && s.type_.len() == 0 ==> fault == Some(
                "service '"@ + s.name + "': type must not be empty"@,
            )
            &&& s.name.len() > 0 && !twice && type_fault(s.name, s.type_) is None
                && protocol_fault(s.name, s.type_, s.protocol) is None && s.port == 0 ==> fault
                == Some("service '"@ + s.name + "': port must be non-zero"@)
        }),
{
}

/// A text that is blank counts as none; any other loses the white space around
/// it. A socket path that is blank gives way to the default; any other stays as
/// it is.
pub proof fn blank_counts_as_none(s: Option<Seq<char>>, default: Seq<char>)
    ensures
        ({
            let blank = s is None || forall|k: int|
                0 <= k < s->0.len() ==> crate::text::white(#[trigger] s->0[k]);
            &&& blank ==> non_blank(s) is None && socket_or(s, default) == default
            &&& !blank ==> non_blank(s) == Some(trimmed(s->0)) && socket_or(s, default) == s->0
        }),
{
    if s is Some {
        let r = crate::text::trimming_takes_white_space_only(s->0);
        assert(trimmed(s->0).len() == r.1 - r.0);
    }
}

} // verus!
