//! Errors of the library.

use vstd::prelude::*;

use crate::value::Value;

verus! {

/// What went wrong, with a message for the operator.
#[derive(Debug, PartialEq, Eq)]
pub enum Error {
    /// The configuration breaks a rule.
    Config(String),
    /// A control socket gave no usable reply.
    Ipc(String),
    /// The mDNS daemon refused a request.
    Mdns(String),
    /// A reply or a file is not the JSON that was expected.
    Json(String),
    /// Anything else.
    Other(String),
}

pub type Result<T> = core::result::Result<T, Error>;

/// What an [`Error`] stands for.
#[verifier::ext_equal]
pub enum ErrorView {
    Config(Seq<char>),
    Ipc(Seq<char>),
    Mdns(Seq<char>),
    Json(Seq<char>),
    Other(Seq<char>),
}

impl View for Error {
    type V = ErrorView;

    open spec fn view(&self) -> ErrorView {
        match self {
            Error::Config(m) => ErrorView::Config(m@),
            Error::Ipc(m) => ErrorView::Ipc(m@),
            Error::Mdns(m) => ErrorView::Mdns(m@),
            Error::Json(m) => ErrorView::Json(m@),
            Error::Other(m) => ErrorView::Other(m@),
        }
    }
}

impl ErrorView {
    /// The message.
    pub open spec fn text(self) -> Seq<char> {
        match self {
            ErrorView::Config(m) => m,
            ErrorView::Ipc(m) => m,
            ErrorView::Mdns(m) => m,
            ErrorView::Json(m) => m,
            ErrorView::Other(m) => m,
        }
    }
}

impl Error {
    /// The message.
    pub fn message(&self) -> (r: String)
        ensures
            r@ == self@.text(),
    {
        match self {
            Error::Config(m) => m.copied(),
            Error::Ipc(m) => m.copied(),
            Error::Mdns(m) => m.copied(),
            Error::Json(m) => m.copied(),
            Error::Other(m) => m.copied(),
        }
    }
}

/// What is wrong with a reply, if anything: an error code in it that is not
/// empty, else a body that is not what was expected.
pub open spec fn reply_fault(code: Option<Seq<char>>, bad_body: Option<Seq<char>>) -> Option<
    ErrorView,
> {
    match (code, bad_body) {
        (Some(c), _) if c.len() > 0 => Some(ErrorView::Ipc(c)),
        (_, Some(m)) => Some(ErrorView::Json(m)),
        _ => None,
    }
}

/// The body of a reply, given the error code in it, if it has one, and the body
/// read as what was expected, or why that failed.
pub fn reply_body<T>(code: Option<String>, body: core::result::Result<T, String>) -> (r:
    core::result::Result<T, Error>)
    ensures
        ({
            let fault = reply_fault(
                crate::value::opt_view(code),
                match body {
                    Ok(_) => None,
                    Err(m) => Some(m@),
                },
            );
            match r {
                Ok(b) => fault is None && body == Ok::<T, String>(b),
                Err(e) => fault == Some(e@),
            }
        }),
{
    if let Some(c) = code {
        if !c.as_str().is_empty() {
            return Err(Error::Ipc(c));
        }
    }
    match body {
        Ok(b) => Ok(b),
        Err(m) => Err(Error::Json(m)),
    }
}

} // verus!
