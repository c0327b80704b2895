//! Retries for the SD card, and the time stamps of its files.
use vstd::prelude::*;

verus! {

/// How often an operation on the SD card is tried.
pub const MAX_RETRIES: u8 = 4;

/// How many milliseconds pass before an operation is tried again.
pub const RETRY_DELAY: u64 = 500;

/// What to do after an attempt.
#[derive(Copy, Clone, Debug, PartialEq, Eq, Structural)]
pub enum RetryStep {
    /// The attempt succeeded.
    Done,
    /// Wait for some milliseconds and try again.
    RetryAfter { ms: u64 },
    /// Every attempt failed.
    GiveUp,
}

/// Counts the attempts of an operation.
pub struct Retry {
    attempt: u8,
}

impl View for Retry {
    type V = nat;

    /// The number of the attempt that is under way, from 1 on.
    closed spec fn view(&self) -> nat {
        self.attempt as nat
    }
}

/// What to do after the `attempt`-th attempt.
pub open spec fn retry_step(attempt: nat, succeeded: bool) -> RetryStep {
    if succeeded {
        RetryStep::Done
    } else if attempt < MAX_RETRIES {
        RetryStep::RetryAfter { ms: RETRY_DELAY }
    } else {
        RetryStep::GiveUp
    }
}

impl Retry {
    /// Before the first attempt.
    pub fn new() -> (r: Retry)
        ensures
            r@ == 1,
    {
        Retry { attempt: 1 }
    }

    /// Tells what to do after an attempt.
    pub fn retry_with_backoff(&mut self, succeeded: bool) -> (step: RetryStep)
        requires
            1 <= old(self)@ <= MAX_RETRIES,
        ensures
            step == retry_step(old(self)@, succeeded),
            final(self)@ == if step is RetryAfter {
                old(self)@ + 1
            } else {
                old(self)@
            },
            1 <= final(self)@ <= MAX_RETRIES,
    {
        if succeeded {
            return RetryStep::Done;
        }
        if self.attempt >= MAX_RETRIES {
            return RetryStep::GiveUp;
        }
        self.attempt = self.attempt + 1;
        RetryStep::RetryAfter { ms: RETRY_DELAY }
    }
}

/// What comes of an operation whose attempts end as `results` tells, from the `attempt`-th
/// attempt on: how many attempts are made, and whether the last one succeeds.
pub open spec fn attempts(results: Seq<bool>, attempt: nat) -> (nat, bool)
    decreases results.len(),
{
    if results.len() == 0 {
        (0, false)
    } else if retry_step(attempt, results[0]) is RetryAfter {
        let (n, ok) = attempts(results.skip(1), attempt + 1);
        (n + 1, ok)
    } else {
        (1, results[0])
    }
}

/// An operation is tried until it succeeds, four times at most; it fails only where four
/// attempts failed.
pub proof fn law_four_attempts(results: Seq<bool>)
    requires
        results.len() == MAX_RETRIES,
    ensures
        1 <= attempts(results, 1).0 <= MAX_RETRIES,
        attempts(results, 1).1 == results[attempts(results, 1).0 - 1],
        forall|i: int| 0 <= i < attempts(results, 1).0 - 1 ==> !results[i],
        !attempts(results, 1).1 ==> attempts(results, 1).0 == MAX_RETRIES,
{
    lemma_attempts(results, 1);
}

proof fn lemma_attempts(results: Seq<bool>, attempt: nat)
    requires
        attempt >= 1,
        results.len() >= 1,
        attempt + results.len() == MAX_RETRIES + 1,
    ensures
        ({
            let (n, ok) = attempts(results, attempt);
            &&& 1 <= n <= results.len()
            &&& ok == results[n - 1]
            &&& forall|i: int| 0 <= i < n - 1 ==> !results[i]
            &&& !ok ==> n == results.len()
        }),
    decreases results.len(),
{
    if retry_step(attempt, results[0]) is RetryAfter {
        let rest = results.skip(1);
        lemma_attempts(rest, attempt + 1);
        let n = attempts(results, attempt).0;
        assert forall|i: int| 0 <= i < n - 1 implies !results[i] by {
            if i > 0 {
                assert(results[i] == rest[i - 1]);
            }
        }
    }
}

/// A time stamp of a file on the card.
#[derive(Copy, Clone, Debug, PartialEq, Eq, Structural)]
pub struct FileTime {
    pub year_since_1970: u8,
    pub zero_indexed_month: u8,
    pub zero_indexed_day: u8,
    pub hours: u8,
    pub minutes: u8,
    pub seconds: u8,
}

/// Stands for a clock where files need no real time stamps.
#[derive(Copy, Clone, Debug, PartialEq, Eq, Structural)]
pub struct DummyTimeSource;

impl DummyTimeSource {
    /// The beginning of 1970.
    pub fn get_timestamp(&self) -> (t: FileTime)
        ensures
            t == (FileTime {
                year_since_1970: 0,
                zero_indexed_month: 0,
                zero_indexed_day: 0,
                hours: 0,
                minutes: 0,
                seconds: 0,
            }),
    {
        FileTime {
            year_since_1970: 0,
            zero_indexed_month: 0,
            zero_indexed_day: 0,
            hours: 0,
            minutes: 0,
            seconds: 0,
        }
    }
}

/// An attempt that failed is made again after half a second, but for the fourth, behind which
/// the operation is given up; nothing is tried again behind one that succeeded.
pub proof fn law_retries_after_half_a_second(attempt: nat)
    ensures
        retry_step(attempt, true) == RetryStep::Done,
        attempt < 4 ==> retry_step(attempt, false) == (RetryStep::RetryAfter { ms: 500 }),
        attempt >= 4 ==> retry_step(attempt, false) == RetryStep::GiveUp,
{
}

} // verus!
