//! Replies of loco-server on `$DATA_DIR/run/bigfred.sock`.
//!
//! One request per connection (poll). Success body for `dcc_bus_list` is
//! `{ "programs": [...] }`; errors are `{ "error": "<code>" }`.

use vstd::prelude::*;

use crate::error::{reply_body, reply_fault, Error};
use crate::numeral::{decimal, to_decimal};
use crate::value::opt_view;

verus! {

/// What can be asked of loco-server.
#[derive(Debug, Clone, Copy, PartialEq, Eq, Structural)]
pub enum Request {
    DccBusList,
    Version,
}

impl Request {
    /// The `type` of the request.
    pub fn tag(&self) -> (r: &'static str)
        ensures
            r@ == (match self {
                Request::DccBusList => "dcc_bus_list"@,
                Request::Version => "version"@,
            }),
    {
        match self {
            Request::DccBusList => "dcc_bus_list",
            Request::Version => "version",
        }
    }
}

/// The success body of `dcc_bus_list`.
#[derive(Debug, PartialEq, Eq)]
pub struct DccBusList {
    pub programs: Vec<Program>,
}

/// One dcc-bus program as returned by loco-server.
#[derive(Debug, PartialEq, Eq)]
pub struct Program {
    pub layout_id: u32,
    pub layout_name: String,
    pub name: String,
    pub status: String,
    pub running: bool,
    pub command_station_id: u32,
    pub withrottle_enabled: bool,
    pub withrottle_port: u16,
    pub z21_enabled: bool,
    pub z21_port: u16,
}

/// What a [`Program`] stands for.
#[verifier::ext_equal]
pub struct ProgramView {
    pub layout_id: u32,
    pub layout_name: Seq<char>,
    pub name: Seq<char>,
    pub status: Seq<char>,
    pub running: bool,
    pub command_station_id: u32,
    pub withrottle_enabled: bool,
    pub withrottle_port: u16,
    pub z21_enabled: bool,
    pub z21_port: u16,
}

impl View for Program {
    type V = ProgramView;

    open spec fn view(&self) -> ProgramView {
        ProgramView {
            layout_id: self.layout_id,
            layout_name: self.layout_name@,
            name: self.name@,
            status: self.status@,
            running: self.running,
            command_station_id: self.command_station_id,
            withrottle_enabled: self.withrottle_enabled,
            withrottle_port: self.withrottle_port,
            z21_enabled: self.z21_enabled,
            z21_port: self.z21_port,
        }
    }
}

impl Default for Program {
    /// A program that does not run, with no ports.
    fn default() -> (r: Self)
        ensures
            r@ == (ProgramView {
                layout_id: 0,
                layout_name: Seq::empty(),
                name: Seq::empty(),
                status: Seq::empty(),
                running: false,
                command_station_id: 0,
                withrottle_enabled: false,
                withrottle_port: 0,
                z21_enabled: false,
                z21_port: 0,
            }),
    {
        Program {
            layout_id: 0,
            layout_name: String::new(),
            name: String::new(),
            status: String::new(),
            running: false,
            command_station_id: 0,
            withrottle_enabled: false,
            withrottle_port: 0,
            z21_enabled: false,
            z21_port: 0,
        }
    }
}

/// DNS-SD instance label (`BigFred #{csId}`).
pub fn instance_name(command_station_id: u32) -> (r: String)
    ensures
        r@ == "BigFred #"@ + decimal(command_station_id as nat),
{
    let mut out = "BigFred #".to_owned();
    out.append(to_decimal(command_station_id as u64).as_str());
    out
}

/// The programs of a reply to `dcc_bus_list`, given the error code in it, if
/// it has one, and its body, or why that is no list of programs.
pub fn dcc_bus_list(code: Option<String>, body: Result<DccBusList, String>) -> (r: Result<
    Vec<Program>,
    Error,
>)
    ensures
        ({
            let fault = reply_fault(
                opt_view(code),
                match body {
                    Ok(_) => None,
                    Err(m) => Some(m@),
                },
            );
            match r {
                Ok(p) => fault is None && body == Ok::<DccBusList, String>(
                    DccBusList { programs: p },
                ),
                Err(e) => fault == Some(e@),
            }
        }),
{
    match reply_body(code, body) {
        Ok(list) => Ok(list.programs),
        Err(e) => Err(e),
    }
}

} // verus!
