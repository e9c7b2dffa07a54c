//! Starting Oracle when the system starts.
//!
//! The entry lives under the user's `Run` registry key: it needs no elevation, it is what
//! the system shows the user as a startup app, and the user can remove it outside Oracle
//! without leaving anything behind. Reading and writing the key is the caller's part; what
//! is written, and what each answer from the registry means, is decided here.
use vstd::prelude::*;
use crate::error::OracleError;

verus! {

/// Passed on an autostarted launch so the app knows to come up in the tray.
pub const HIDDEN_FLAG: &'static str = "--hidden";

/// The registry command for an executable: its path in quotes, then the hidden flag when
/// the autostarted instance should only show its tray icon.
pub open spec fn command_text(exe: Seq<char>, start_hidden: bool) -> Seq<char> {
    if start_hidden {
        "\""@ + exe + "\" "@ + HIDDEN_FLAG@
    } else {
        "\""@ + exe + "\""@
    }
}

/// Builds the registry command string.
///
/// The path is quoted because `Program Files` and the user's own name routinely contain
/// spaces, and an unquoted path there launches the wrong thing or nothing at all.
pub fn command_line(exe: &str, start_hidden: bool) -> (r: String)
    ensures
        r@ == command_text(exe@, start_hidden),
{
    let mut r = String::new();
    r.append("\"");
    r.append(exe);
    if start_hidden {
        r.append("\" ");
        r.append(HIDDEN_FLAG);
    } else {
        r.append("\"");
    }
    r
}

/// What registering or unregistering does to the startup entry.
pub enum StartupChange {
    /// Remove the entry.
    Clear,
    /// Write the entry with this command.
    Register(String),
}

/// Registers or unregisters Oracle: the change to make to the startup entry for the
/// executable at `exe`.
///
/// `start_hidden` decides whether the autostarted instance shows its window or only its
/// tray icon, the usual choice for something meant to sit in the background.
pub fn set(enabled: bool, start_hidden: bool, exe: &str) -> (r: StartupChange)
    ensures
        match r {
            StartupChange::Clear => !enabled,
            StartupChange::Register(c) => enabled && c@ == command_text(exe@, start_hidden),
        },
{
    if !enabled {
        StartupChange::Clear
    } else {
        StartupChange::Register(command_line(exe, start_hidden))
    }
}

/// How the registry answered a request to remove the entry.
pub enum Removal {
    Removed,
    /// There was no entry to remove.
    NotFound,
    /// Anything else, with the error's text.
    Failed(String),
}

/// The message for a startup entry that could not be removed.
pub open spec fn clear_failure(cause: Seq<char>) -> Seq<char> {
    "cannot clear the startup entry: "@ + cause
}

/// The outcome of unregistering. Removing an entry that is not there is success, not
/// failure.
pub fn removal_outcome(answer: Removal) -> (r: Result<(), OracleError>)
    ensures
        match answer {
            Removal::Removed => r is Ok,
            Removal::NotFound => r is Ok,
            Removal::Failed(cause) => r matches Err(OracleError::Other(m)) && m@ == clear_failure(
                cause@,
            ),
        },
{
    match answer {
        Removal::Removed => Ok(()),
        Removal::NotFound => Ok(()),
        Removal::Failed(cause) => {
            let mut m = String::new();
            m.append("cannot clear the startup entry: ");
            m.append(cause.as_str());
            Err(OracleError::Other(m))
        },
    }
}

/// Whether Oracle starts with the system: true when the startup entry could be read.
pub fn is_enabled(entry: Option<&str>) -> (r: bool)
    ensures
        r == entry is Some,
{
    entry.is_some()
}

/// True when this process was launched by the autostart entry: one of its arguments is
/// the hidden flag.
pub fn launched_hidden(args: &Vec<String>) -> (r: bool)
    ensures
        r == exists|i: int| 0 <= i < args@.len() && args@[i]@ == HIDDEN_FLAG@,
{
    let flag = HIDDEN_FLAG;
    let mut i: usize = 0;
    while i < args.len()
        invariant
            i <= args@.len(),
            flag@ == HIDDEN_FLAG@,
            forall|j: int| 0 <= j < i ==> args@[j]@ != HIDDEN_FLAG@,
        decreases args@.len() - i,
    {
        if crate::text::same(
            crate::text::chars_of(args[i].as_str()).as_slice(),
            crate::text::chars_of(flag).as_slice(),
        ) {
            return true;
        }
        i += 1;
    }
    false
}

/// Whether saving settings must write the startup entry. The registry, not the stored
/// setting, is the source of truth: the entry is written whenever the wanted state differs
/// from it, and rewritten whenever autostart stays on, since the hidden flag may have
/// changed.
pub fn needs_write(wanted: bool, registered: bool) -> (r: bool)
    ensures
        r == (wanted != registered || wanted),
{
    wanted != registered || wanted
}

} // verus!
