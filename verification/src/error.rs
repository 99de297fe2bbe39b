//! What can go wrong, and how it is told to the user.
use vstd::prelude::*;

use crate::text::glue;
use crate::text::glue3;

verus! {

/// A failed operation.
#[derive(Debug, Clone)]
pub enum DsyncError {
    /// No configuration was found in the directory or above it.
    NotInitialized,
    /// The directory has a configuration already.
    AlreadyInitialized,
    /// The configuration, or what was asked of it, is not acceptable.
    Config(String),
    /// The operating system refused something at `path`; `source` is its reason.
    Io { path: String, source: String },
    /// The SSH connection could not be made or used.
    Ssh(String),
    /// The other side sent something unexpected.
    Protocol(String),
    /// The named file did not arrive as it was sent.
    Integrity(String),
    /// Anything else.
    Other(String),
}

/// An error, with its texts as sequences of characters.
pub enum ErrorView {
    NotInitialized,
    AlreadyInitialized,
    Config(Seq<char>),
    Io { path: Seq<char>, source: Seq<char> },
    Ssh(Seq<char>),
    Protocol(Seq<char>),
    Integrity(Seq<char>),
    Other(Seq<char>),
}

impl View for DsyncError {
    type V = ErrorView;

    open spec fn view(&self) -> ErrorView {
        match self {
            DsyncError::NotInitialized => ErrorView::NotInitialized,
            DsyncError::AlreadyInitialized => ErrorView::AlreadyInitialized,
            DsyncError::Config(m) => ErrorView::Config(m@),
            DsyncError::Io { path, source } => ErrorView::Io { path: path@, source: source@ },
            DsyncError::Ssh(m) => ErrorView::Ssh(m@),
            DsyncError::Protocol(m) => ErrorView::Protocol(m@),
            DsyncError::Integrity(m) => ErrorView::Integrity(m@),
            DsyncError::Other(m) => ErrorView::Other(m@),
        }
    }
}

/// The view of an outcome.
pub open spec fn outcome<T: View>(r: Result<T, DsyncError>) -> Result<T::V, ErrorView> {
    match r {
        Ok(v) => Ok(v@),
        Err(e) => Err(e@),
    }
}

/// The error of an outcome, if it is one.
pub open spec fn failure<T>(r: Result<T, DsyncError>) -> Option<ErrorView> {
    match r {
        Ok(_) => None,
        Err(e) => Some(e@),
    }
}

impl ErrorView {
    /// The sentence shown for an error.
    pub open spec fn sentence(self) -> Seq<char> {
        match self {
            ErrorView::NotInitialized => "not a dsync directory: run `dsync init <path>` first"@,
            ErrorView::AlreadyInitialized =>
                "already a dsync directory (use `dsync remote` to manage targets)"@,
            ErrorView::Config(m) => "config error: "@ + m,
            ErrorView::Io { path, source } => "io error at "@ + path + ": "@ + source,
            ErrorView::Ssh(m) => "ssh error: "@ + m,
            ErrorView::Protocol(m) => "protocol error: "@ + m,
            ErrorView::Integrity(m) => "integrity check failed for "@ + m,
            ErrorView::Other(m) => m,
        }
    }
}

impl DsyncError {
    /// The operating system's reason `source` for a failure at `path`.
    pub fn io(path: &str, source: &str) -> (r: DsyncError)
        ensures
            r@ == (ErrorView::Io { path: path@, source: source@ }),
    {
        DsyncError::Io { path: path.to_owned(), source: source.to_owned() }
    }

    /// The sentence shown for this error.
    pub fn message(&self) -> (r: String)
        ensures
            r@ == self@.sentence(),
    {
        match self {
            DsyncError::NotInitialized =>
                "not a dsync directory: run `dsync init <path>` first".to_owned(),
            DsyncError::AlreadyInitialized =>
                "already a dsync directory (use `dsync remote` to manage targets)".to_owned(),
            DsyncError::Config(m) => glue("config error: ", m.as_str()),
            DsyncError::Io { path, source } => {
                let mut out = glue3("io error at ", path.as_str(), ": ");
                out.append(source.as_str());
                out
            },
            DsyncError::Ssh(m) => glue("ssh error: ", m.as_str()),
            DsyncError::Protocol(m) => glue("protocol error: ", m.as_str()),
            DsyncError::Integrity(m) => glue("integrity check failed for ", m.as_str()),
            DsyncError::Other(m) => m.clone(),
        }
    }
}


/// Every error is told with its own words, and what it holds is told in full.
pub proof fn law_errors_are_told_in_full(m: Seq<char>, path: Seq<char>, source: Seq<char>)
    ensures
        ErrorView::Config(m).sentence() == "config error: "@ + m,
        ErrorView::Ssh(m).sentence() == "ssh error: "@ + m,
        ErrorView::Protocol(m).sentence() == "protocol error: "@ + m,
        ErrorView::Integrity(m).sentence() == "integrity check failed for "@ + m,
        ErrorView::Other(m).sentence() == m,
        (ErrorView::Io { path, source }).sentence() == "io error at "@ + path + ": "@ + source,
{
}

} // verus!
