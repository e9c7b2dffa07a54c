//! HTTP health checks for projects deployed elsewhere.
//!
//! One request per remote project, recording the status code and how long it took. Sending
//! the request is the caller's part; classifying what came back is this module's.
use vstd::prelude::*;
use crate::model::{RemoteCheck, RemoteTarget};
use crate::text::{decimal_digits, decimal_string, string_of};

verus! {

/// How long a check may take, in seconds.
pub const TIMEOUT_SECS: u64 = 5;

pub enum RemoteStatus {
    /// Answered with an acceptable status code.
    Up { ms: u64, code: u16 },
    /// Answered, but not with a status the project considers healthy.
    Degraded { ms: u64, code: u16 },
    /// Did not answer at all.
    Down { reason: String },
    /// Never checked yet.
    Unchecked,
}

impl RemoteStatus {
    pub fn latency_ms(&self) -> (r: Option<u64>)
        ensures
            r == match *self {
                RemoteStatus::Up { ms, .. } => Some(ms),
                RemoteStatus::Degraded { ms, .. } => Some(ms),
                _ => None::<u64>,
            },
    {
        match self {
            RemoteStatus::Up { ms, .. } => Some(*ms),
            RemoteStatus::Degraded { ms, .. } => Some(*ms),
            _ => None,
        }
    }
}

pub struct RemoteReport {
    pub project_id: String,
    pub status: RemoteStatus,
    pub checked_at: i64,
}

/// Whether a status code counts as healthy: one of `expected`, or any 2xx or 3xx when
/// nothing is expected.
pub open spec fn healthy(code: u16, expected: Seq<u16>) -> bool {
    if expected.len() == 0 {
        200 <= code < 400
    } else {
        expected.contains(code)
    }
}

/// An empty expectation list means "any 2xx or 3xx".
pub fn is_healthy(code: u16, expected: &[u16]) -> (r: bool)
    ensures
        r == healthy(code, expected@),
{
    if expected.len() == 0 {
        return 200 <= code && code < 400;
    }
    let mut i: usize = 0;
    while i < expected.len()
        invariant
            i <= expected@.len(),
            forall|j: int| 0 <= j < i ==> expected@[j] != code,
        decreases expected@.len() - i,
    {
        if expected[i] == code {
            assert(expected@.contains(code));
            return true;
        }
        i += 1;
    }
    false
}

/// With an expectation list, a status code is healthy exactly when it is one of the listed
/// codes, wherever in the list it stands; without one, exactly the 2xx and 3xx codes are.
pub proof fn lemma_healthy_is_listed(code: u16, expected: Seq<u16>)
    ensures
        expected.len() > 0 ==> (healthy(code, expected) <==> exists|i: int|
            0 <= i < expected.len() && expected[i] == code),
        expected.len() > 0 ==> forall|i: int|
            0 <= i < expected.len() ==> healthy(#[trigger] expected[i], expected),
        expected.len() == 0 ==> (healthy(code, expected) <==> 200 <= code && code <= 399),
{
    if expected.len() > 0 {
        assert forall|i: int| 0 <= i < expected.len() implies healthy(#[trigger] expected[i], expected) by {
            assert(expected.contains(expected[i]));
        }
    }
}

/// Which kind of failure a request ended in, as the HTTP client reports it.
#[derive(Clone, Copy, Debug, PartialEq, Eq, Structural)]
pub enum FailureKind {
    Timeout,
    Connect,
    Request,
    /// The body could not be read or decoded.
    Malformed,
    Other,
}

pub open spec fn failure_text(kind: FailureKind) -> Seq<char> {
    match kind {
        FailureKind::Timeout => "No response within "@ + decimal_digits(TIMEOUT_SECS as nat)
            + "s"@,
        FailureKind::Connect => "Connection refused"@,
        FailureKind::Request => "Invalid request"@,
        FailureKind::Malformed => "Malformed response"@,
        FailureKind::Other => "Unreachable"@,
    }
}

/// A failure as something worth showing in a tooltip: which kind it was, not the client's
/// internals.
pub fn describe(kind: FailureKind) -> (r: String)
    ensures
        r@ == failure_text(kind),
{
    match kind {
        FailureKind::Timeout => {
            let mut r = "No response within ".to_owned();
            let digits = decimal_string(TIMEOUT_SECS);
            r.append(string_of(digits.as_slice()).as_str());
            r.append("s");
            r
        },
        FailureKind::Connect => "Connection refused".to_owned(),
        FailureKind::Request => "Invalid request".to_owned(),
        FailureKind::Malformed => "Malformed response".to_owned(),
        FailureKind::Other => "Unreachable".to_owned(),
    }
}

pub open spec fn expected_codes(target: RemoteTarget) -> Seq<u16> {
    match target.check {
        RemoteCheck::Http { expect_status, .. } => expect_status@,
    }
}

/// Classifies one check: an answer is up or degraded by its code, no answer is down.
///
/// `response` is the latency in milliseconds and the status code, or the kind of failure.
pub fn classify(target: &RemoteTarget, response: Result<(u64, u16), FailureKind>) -> (r: RemoteStatus)
    ensures
        match response {
            Ok((ms, code)) => if healthy(code, expected_codes(*target)) {
                r == RemoteStatus::Up { ms, code }
            } else {
                r == RemoteStatus::Degraded { ms, code }
            },
            Err(kind) => r matches RemoteStatus::Down { reason } && reason@ == failure_text(kind),
        },
{
    match response {
        Ok((ms, code)) => {
            let healthy_code = match &target.check {
                RemoteCheck::Http { expect_status, .. } => is_healthy(code, expect_status.as_slice()),
            };
            if healthy_code {
                RemoteStatus::Up { ms, code }
            } else {
                RemoteStatus::Degraded { ms, code }
            }
        },
        Err(kind) => RemoteStatus::Down { reason: describe(kind) },
    }
}

} // verus!
