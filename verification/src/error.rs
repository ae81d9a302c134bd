//! One error type for the whole crate. An unsolvable dependency graph is not an
//! error: it is answered with an explanation. `Err` is for malformed input and IO.
use vstd::prelude::*;
use crate::text::push_str;

verus! {

#[derive(Debug)]
pub enum Error {
    Version(String),
    Range(String),
    Manifest(String),
    Lock(String),
    Io(String),
}

/// The error as plain values: its kind and its message.
pub enum ErrorView {
    Version(Seq<char>),
    Range(Seq<char>),
    Manifest(Seq<char>),
    Lock(Seq<char>),
    Io(Seq<char>),
}

impl View for Error {
    type V = ErrorView;

    open spec fn view(&self) -> ErrorView {
        match self {
            Error::Version(m) => ErrorView::Version(m@),
            Error::Range(m) => ErrorView::Range(m@),
            Error::Manifest(m) => ErrorView::Manifest(m@),
            Error::Lock(m) => ErrorView::Lock(m@),
            Error::Io(m) => ErrorView::Io(m@),
        }
    }
}

pub type Result<T> = std::result::Result<T, Error>;

/// The text an error is shown as: its kind, then its message.
pub open spec fn error_text(e: ErrorView) -> Seq<char> {
    match e {
        ErrorView::Version(m) => "version error: "@ + m,
        ErrorView::Range(m) => "constraint error: "@ + m,
        ErrorView::Manifest(m) => "manifest error: "@ + m,
        ErrorView::Lock(m) => "lockfile error: "@ + m,
        ErrorView::Io(m) => "io error: "@ + m,
    }
}

impl Error {
    /// The error as a line of text.
    pub fn to_string(&self) -> (r: String)
        ensures
            r@ == error_text(self@),
    {
        let mut out = String::new();
        match self {
            Error::Version(m) => {
                push_str(&mut out, "version error: ");
                push_str(&mut out, m.as_str());
            },
            Error::Range(m) => {
                push_str(&mut out, "constraint error: ");
                push_str(&mut out, m.as_str());
            },
            Error::Manifest(m) => {
                push_str(&mut out, "manifest error: ");
                push_str(&mut out, m.as_str());
            },
            Error::Lock(m) => {
                push_str(&mut out, "lockfile error: ");
                push_str(&mut out, m.as_str());
            },
            Error::Io(m) => {
                push_str(&mut out, "io error: ");
                push_str(&mut out, m.as_str());
            },
        }
        out
    }
}

} // verus!
