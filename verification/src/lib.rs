//! Advertisement logic of an mDNS/DNS-SD daemon: configuration rules, DNS
//! packets for legacy resolvers, reconciliation of registrations, watch-loop
//! decisions and the text shown to operators.
//!
//! What needs sockets, files, threads or clocks lives in the program around the
//! library. Loops that alternate with such work are state machines here:
//! [`daemon::Daemon`], [`responder::Responder`], [`wait::Waiter`] and
//! [`iface_watch::Watcher`] say what to do next and take in what came of it.

pub mod beacon;
pub mod bigfred_watch;
pub mod bytes;
pub mod config;
pub mod config_watch;
pub mod ctl;
pub mod daemon;
pub mod datadir;
pub mod dns;
pub mod doctor;
pub mod error;
pub mod frame;
pub mod grouping;
pub mod iface_watch;
pub mod legacy_unicast;
pub mod mdns;
pub mod microinit_watch;
pub mod net;
pub mod numeral;
pub mod order;
pub mod proc_scan;
pub mod responder;
pub mod rounds;
pub mod run;
pub mod schedule;
pub mod selfcheck;
pub mod sys;
pub mod text;
pub mod textmap;
pub mod time;
pub mod value;
pub mod wait;
