//! The retry policy for handing a fill to the settlement service. The
//! engine decides; the caller sends, waits and reports back.

use vstd::prelude::*;

verus! {

/// How often a failed submission is tried again.
pub const MAX_RETRIES: u32 = 3;

/// What to do after an attempt to submit a fill.
#[derive(Clone, Copy, PartialEq, Eq, Structural, Debug)]
pub enum NextStep {
    /// The fill was delivered.
    Done,
    /// Wait for so many milliseconds, then try again.
    RetryAfter(u64),
    /// The submission failed for good; the match stands all the same.
    GiveUp,
}

/// The wait before the retry that follows `retries` earlier ones, in
/// milliseconds: 100, and four times as long each time after.
pub open spec fn backoff_ms(retries: nat) -> nat
    decreases retries,
{
    if retries == 0 {
        100
    } else {
        4 * backoff_ms((retries - 1) as nat)
    }
}

/// The step after an attempt that was preceded by `retries` retries:
/// done once the fill is delivered; else another try after the backoff, as
/// long as fewer than `MAX_RETRIES` were made.
pub open spec fn step_after(retries: u32, delivered: bool) -> NextStep {
    if delivered {
        NextStep::Done
    } else if retries < MAX_RETRIES {
        NextStep::RetryAfter(backoff_ms(retries as nat) as u64)
    } else {
        NextStep::GiveUp
    }
}

pub fn after_attempt(retries: u32, delivered: bool) -> (next: NextStep)
    ensures
        next == step_after(retries, delivered),
{
    if delivered {
        return NextStep::Done;
    }
    if retries >= MAX_RETRIES {
        return NextStep::GiveUp;
    }
    let mut wait: u64 = 100;
    let mut k: u32 = 0;
    while k < retries
        invariant
            k <= retries < MAX_RETRIES,
            wait == backoff_ms(k as nat),
            wait <= 1600,
        decreases retries - k,
    {
        assert(backoff_ms(0) == 100);
        assert(backoff_ms(1) == 400);
        assert(backoff_ms(2) == 1600);
        wait = wait * 4;
        k = k + 1;
    }
    NextStep::RetryAfter(wait)
}

} // verus!
