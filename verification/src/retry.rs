//! Retrying an action that may fail: after each attempt, whether to stop or
//! to wait and try again.
use vstd::prelude::*;

verus! {

/// What to do after an attempt.
pub enum RetryStep {
    /// Give the attempt's result back.
    Finish,
    /// Wait (a tenth of a second), then try again with this many retries left.
    WaitAndRetry(usize),
}

/// The decision after an attempt, with `times` retries left: a success, or
/// a failure with no retry left, is given back; any other failure is tried
/// again after a pause, with one retry fewer.
pub fn retry(times: usize, succeeded: bool) -> (s: RetryStep)
    ensures
        succeeded || times == 0 ==> s is Finish,
        !succeeded && times > 0 ==> s == RetryStep::WaitAndRetry((times - 1) as usize),
{
    if succeeded || times < 1 {
        RetryStep::Finish
    } else {
        RetryStep::WaitAndRetry(times - 1)
    }
}

} // verus!
