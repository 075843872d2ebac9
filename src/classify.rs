//! Classification of the answer of a single probe.
use vstd::prelude::*;

verus! {

/// The outcome recorded for a probe that got no answer at all: a timeout, a
/// refused connection, a failed name lookup or handshake.
pub const FAILED: u16 = 0;

/// Whether a recorded status code counts as a live endpoint: `200..300`.
pub open spec fn spec_is_success(code: u16) -> bool {
    200 <= code < 300
}

/// The outcome recorded for a probe: the status code of the answer, or
/// `FAILED` when there was none or its code lies outside `100..=599`.
pub open spec fn spec_outcome(answer: Option<u16>) -> u16 {
    match answer {
        Some(code) => if is_status_code(code) {
            code
        } else {
            FAILED
        },
        None => FAILED,
    }
}

/// Whether `code` is a status code that a server can send.
pub open spec fn is_status_code(code: u16) -> bool {
    100 <= code <= 599
}

/// Whether a recorded outcome counts as a live endpoint.
#[verifier::when_used_as_spec(spec_is_success)]
pub fn is_success(code: u16) -> (r: bool)
    ensures
        r == spec_is_success(code),
{
    200 <= code && code < 300
}

/// The outcome to record for a probe whose answer carried status `answer`,
/// or that got no answer (`None`).  An answer whose code is no status code
/// of `100..=599` counts as no answer.
pub fn outcome_code(answer: Option<u16>) -> (r: u16)
    ensures
        r == spec_outcome(answer),
        r == FAILED || is_status_code(r),
        answer is None ==> r == FAILED,
{
    match answer {
        Some(code) => if 100 <= code && code <= 599 {
            code
        } else {
            FAILED
        },
        None => FAILED,
    }
}

/// Every outcome is either the failure value or a status code of
/// `100..=599`: a probe that got no answer is recorded as `FAILED`, which is
/// no status code and never counts as live, and one whose answer carried a
/// status code is recorded with that code.
pub proof fn lemma_outcome_range(answer: Option<u16>)
    ensures
        spec_outcome(answer) == FAILED || is_status_code(spec_outcome(answer)),
        answer is None ==> spec_outcome(answer) == FAILED,
        answer matches Some(code) ==> spec_outcome(answer) == if is_status_code(code) {
            code
        } else {
            FAILED
        },
        !is_status_code(FAILED),
        !spec_is_success(FAILED),
{
}

} // verus!
