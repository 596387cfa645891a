//! How a query is carried to the upstream resolver over TCP.

use vstd::prelude::*;

verus! {

/// How one attempt went.
#[derive(Clone, Copy, Debug, PartialEq, Eq)]
pub enum Attempt {
    /// An answer came.
    Answered,
    /// The connection broke.
    Broken,
    /// No answer came in time.
    TimedOut,
}

/// What follows an attempt.
#[derive(Clone, Copy, Debug, PartialEq, Eq)]
pub enum Verdict {
    /// To hand the answer on.
    Deliver,
    /// To try once more, over a new connection.
    Retry,
    /// To report the failure.
    GiveUp,
}

/// What follows an attempt. The resolver may close a connection that was idle,
/// which earns a query over a reused one a second attempt. A failure over a new
/// connection, or a query that timed out, does not: a retry would only double
/// the wait.
pub open spec fn verdict(reused: bool, attempt: Attempt) -> Verdict {
    if attempt == Attempt::Answered {
        Verdict::Deliver
    } else if reused && attempt == Attempt::Broken {
        Verdict::Retry
    } else {
        Verdict::GiveUp
    }
}

/// Whether the connection is kept after an attempt.
pub open spec fn keeps(attempt: Attempt) -> bool {
    attempt == Attempt::Answered
}

/// Decides what follows an attempt over a connection that was `reused` or not,
/// and whether that connection is kept.
pub fn after_attempt(reused: bool, attempt: Attempt) -> (next: (Verdict, bool))
    ensures
        next.0 == verdict(reused, attempt),
        next.1 == keeps(attempt),
{
    match attempt {
        Attempt::Answered => (Verdict::Deliver, true),
        Attempt::Broken => if reused {
            (Verdict::Retry, false)
        } else {
            (Verdict::GiveUp, false)
        },
        Attempt::TimedOut => (Verdict::GiveUp, false),
    }
}

/// A query is tried at most twice: a retry goes over a new connection, after
/// which there is no other.
pub proof fn law_one_retry(reused: bool, first: Attempt, second: Attempt)
    requires
        verdict(reused, first) == Verdict::Retry,
    ensures
        !keeps(first),
        verdict(keeps(first), second) != Verdict::Retry,
{
}

} // verus!
