//! One error type for the whole backend.
//!
//! Every failure that can reach the user carries a stable `code` the frontend can switch on,
//! a short `message` fit for a toast, and an optional `detail` for the expandable section.
//! The underlying causes are held as the text they print, which is all the user ever sees
//! of them.
use vstd::prelude::*;
use crate::text::{decimal_digits, decimal_string, string_of};

verus! {

pub enum OracleError {
    ProjectNotFound(String),
    NoLocalTarget(String),
    NoRemoteTarget(String),
    AlreadyRunning(String),
    NotRunning(String),
    EmptyCommand,
    MissingWorkingDir(String),
    SpawnFailed(String),
    StopFailed(String),
    /// Reading or writing the configuration failed; `cause` is the I/O error's text.
    Config { cause: String },
    /// The configuration is not valid JSON; `cause` is the parser's text.
    ConfigParse { cause: String },
    Io { path: String, cause: String },
    GitMissing,
    Git(String),
    /// An HTTP request failed; `cause` is the client's text.
    Http { cause: String },
    Other(String),
    /// A port another process holds, with who holds it and the next free port, if any.
    PortInUse { port: u16, holder: String, suggestion: Option<u16> },
}

/// The stable identifier of each kind of error.
pub open spec fn error_code(e: OracleError) -> Seq<char> {
    match e {
        OracleError::ProjectNotFound(_) => "project_not_found"@,
        OracleError::NoLocalTarget(_) => "no_local_target"@,
        OracleError::NoRemoteTarget(_) => "no_remote_target"@,
        OracleError::AlreadyRunning(_) => "already_running"@,
        OracleError::NotRunning(_) => "not_running"@,
        OracleError::EmptyCommand => "empty_command"@,
        OracleError::MissingWorkingDir(_) => "missing_working_dir"@,
        OracleError::SpawnFailed(_) => "spawn_failed"@,
        OracleError::StopFailed(_) => "stop_failed"@,
        OracleError::Config { .. } => "config_io"@,
        OracleError::ConfigParse { .. } => "config_parse"@,
        OracleError::Io { .. } => "io"@,
        OracleError::GitMissing => "git_missing"@,
        OracleError::Git(_) => "git"@,
        OracleError::Http { .. } => "http"@,
        OracleError::Other(_) => "other"@,
        OracleError::PortInUse { .. } => "port_in_use"@,
    }
}

/// The message each error shows.
pub open spec fn error_message(e: OracleError) -> Seq<char> {
    match e {
        OracleError::ProjectNotFound(id) => "no project with id "@ + id@,
        OracleError::NoLocalTarget(n) => n@ + " has no local target configured"@,
        OracleError::NoRemoteTarget(n) => n@ + " has no remote target configured"@,
        OracleError::AlreadyRunning(n) => n@ + " is already running"@,
        OracleError::NotRunning(n) => n@ + " is not running"@,
        OracleError::EmptyCommand => "the launch command is empty"@,
        OracleError::MissingWorkingDir(p) => "working directory does not exist: "@ + p@,
        OracleError::SpawnFailed(s) => "could not start the process: "@ + s@,
        OracleError::StopFailed(s) => "could not stop the process: "@ + s@,
        OracleError::Config { .. } => "could not read or write the configuration"@,
        OracleError::ConfigParse { .. } => "the configuration file is not valid JSON"@,
        OracleError::Io { path, .. } => "filesystem error at "@ + path@,
        OracleError::GitMissing => "git is not available on this machine"@,
        OracleError::Git(s) => "git failed: "@ + s@,
        OracleError::Http { .. } => "the request failed"@,
        OracleError::Other(s) => s@,
        OracleError::PortInUse { port, holder, .. } => "port "@ + decimal_digits(port as nat)
            + " is held by "@ + holder@,
    }
}

/// The underlying cause, where there is one.
pub open spec fn error_detail(e: OracleError) -> Option<Seq<char>> {
    match e {
        OracleError::Config { cause } => Some(cause@),
        OracleError::ConfigParse { cause } => Some(cause@),
        OracleError::Io { cause, .. } => Some(cause@),
        OracleError::Http { cause } => Some(cause@),
        _ => None,
    }
}

fn text_after(prefix: &str, rest: &String) -> (r: String)
    ensures
        r@ == prefix@ + rest@,
{
    let mut r = prefix.to_owned();
    r.append(rest.as_str());
    r
}

fn text_before(first: &String, suffix: &str) -> (r: String)
    ensures
        r@ == first@ + suffix@,
{
    let mut r = first.clone();
    r.append(suffix);
    r
}

impl OracleError {
    /// Stable identifier the frontend can branch on. Never changes once shipped.
    pub fn code(&self) -> (r: &'static str)
        ensures
            r@ == error_code(*self),
    {
        match self {
            OracleError::ProjectNotFound(_) => "project_not_found",
            OracleError::NoLocalTarget(_) => "no_local_target",
            OracleError::NoRemoteTarget(_) => "no_remote_target",
            OracleError::AlreadyRunning(_) => "already_running",
            OracleError::NotRunning(_) => "not_running",
            OracleError::EmptyCommand => "empty_command",
            OracleError::MissingWorkingDir(_) => "missing_working_dir",
            OracleError::SpawnFailed(_) => "spawn_failed",
            OracleError::StopFailed(_) => "stop_failed",
            OracleError::Config { .. } => "config_io",
            OracleError::ConfigParse { .. } => "config_parse",
            OracleError::Io { .. } => "io",
            OracleError::GitMissing => "git_missing",
            OracleError::Git(_) => "git",
            OracleError::Http { .. } => "http",
            OracleError::Other(_) => "other",
            OracleError::PortInUse { .. } => "port_in_use",
        }
    }

    /// The message shown to the user.
    pub fn message(&self) -> (r: String)
        ensures
            r@ == error_message(*self),
    {
        match self {
            OracleError::ProjectNotFound(id) => text_after("no project with id ", id),
            OracleError::NoLocalTarget(n) => text_before(n, " has no local target configured"),
            OracleError::NoRemoteTarget(n) => text_before(n, " has no remote target configured"),
            OracleError::AlreadyRunning(n) => text_before(n, " is already running"),
            OracleError::NotRunning(n) => text_before(n, " is not running"),
            OracleError::EmptyCommand => "the launch command is empty".to_owned(),
            OracleError::MissingWorkingDir(p) => text_after("working directory does not exist: ", p),
            OracleError::SpawnFailed(s) => text_after("could not start the process: ", s),
            OracleError::StopFailed(s) => text_after("could not stop the process: ", s),
            OracleError::Config { .. } => "could not read or write the configuration".to_owned(),
            OracleError::ConfigParse { .. } => "the configuration file is not valid JSON".to_owned(),
            OracleError::Io { path, .. } => text_after("filesystem error at ", path),
            OracleError::GitMissing => "git is not available on this machine".to_owned(),
            OracleError::Git(s) => text_after("git failed: ", s),
            OracleError::Http { .. } => "the request failed".to_owned(),
            OracleError::Other(s) => s.clone(),
            OracleError::PortInUse { port, holder, .. } => {
                let digits = decimal_string(*port as u64);
                let mut r = "port ".to_owned();
                r.append(string_of(digits.as_slice()).as_str());
                r.append(" is held by ");
                r.append(holder.as_str());
                r
            },
        }
    }

    /// The structured part of an error, for a frontend that offers an action on it: the
    /// port a conflict is about and the free port suggested in its place.
    pub fn data(&self) -> (r: Option<(u16, Option<u16>)>)
        ensures
            r == match *self {
                OracleError::PortInUse { port, suggestion, .. } => Some((port, suggestion)),
                _ => None,
            },
    {
        match self {
            OracleError::PortInUse { port, suggestion, .. } => Some((*port, *suggestion)),
            _ => None,
        }
    }

    /// The underlying cause, flattened into readable text.
    pub fn detail(&self) -> (r: Option<String>)
        ensures
            match r {
                Some(d) => error_detail(*self) == Some(d@),
                None => error_detail(*self) is None,
            },
    {
        match self {
            OracleError::Config { cause } => Some(cause.clone()),
            OracleError::ConfigParse { cause } => Some(cause.clone()),
            OracleError::Io { cause, .. } => Some(cause.clone()),
            OracleError::Http { cause } => Some(cause.clone()),
            _ => None,
        }
    }
}

} // verus!
