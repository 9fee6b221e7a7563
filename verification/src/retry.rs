//! The bounded retry loop around an external text provider: each
//! successful response runs through the extractor, and the loop stops
//! at the first response with an accepted candidate or when the
//! attempt budget is spent. A provider failure is the caller's to
//! surface; it is never silently retried.

use vstd::prelude::*;
use crate::extract::{candidates, extract};
use crate::lexicon::Lexicon;

verus! {

/// Why producing a validated phrase fails.
#[derive(Debug, Clone, Copy, PartialEq, Eq, Structural)]
pub enum ProduceError {
    /// Every attempted response came back without an accepted
    /// candidate.
    RetriesExhausted,
}

/// What one validation attempt decides.
pub enum StepOutcome {
    /// The response held accepted candidates; they are returned.
    Accepted(Vec<String>),
    /// No candidate, and attempts remain: ask the provider again.
    Retry,
    /// No candidate and the attempt budget is spent.
    Exhausted,
}

/// The state of a bounded retry loop: the target syllable count and
/// the attempts still allowed, counting the one about to run.
pub struct RetrySession {
    pub target: u32,
    pub attempts_left: u32,
}

impl RetrySession {
    pub fn new(target: u32, max_attempts: u32) -> (r: RetrySession)
        ensures
            r.target == target,
            r.attempts_left == max_attempts,
    {
        RetrySession { target, attempts_left: max_attempts }
    }

    /// Feeds one successful provider response through the extractor:
    /// accepts exactly when the response holds a candidate, retries
    /// while attempts remain, and gives up otherwise.
    pub fn step(&mut self, lex: &Lexicon, text: &str) -> (r: StepOutcome)
        requires
            lex.wf(),
        ensures
            final(self).target == old(self).target,
            (match r {
                StepOutcome::Accepted(cands) => candidates(
                    lex@,
                    text@,
                    old(self).target,
                ).len() > 0 && cands.deep_view() == candidates(lex@, text@, old(self).target)
                    && final(self).attempts_left == old(self).attempts_left,
                StepOutcome::Retry => candidates(lex@, text@, old(self).target).len() == 0 && old(
                    self,
                ).attempts_left > 1 && final(self).attempts_left == old(self).attempts_left - 1,
                StepOutcome::Exhausted => candidates(lex@, text@, old(self).target).len() == 0
                    && old(self).attempts_left <= 1 && final(self).attempts_left == old(
                    self,
                ).attempts_left,
            }),
    {
        let found = extract(lex, text, self.target);
        if found.len() > 0 {
            proof {
                assert(found.deep_view().len() == found@.len());
            }
            StepOutcome::Accepted(found)
        } else if self.attempts_left > 1 {
            proof {
                assert(found.deep_view().len() == found@.len());
            }
            self.attempts_left = self.attempts_left - 1;
            StepOutcome::Retry
        } else {
            proof {
                assert(found.deep_view().len() == found@.len());
            }
            StepOutcome::Exhausted
        }
    }
}

/// The attempts a run may consume: no more than the responses in hand
/// and no more than the budget.
pub open spec fn attempt_cap(n_responses: int, max_attempts: int) -> int {
    if n_responses < max_attempts {
        n_responses
    } else {
        max_attempts
    }
}

/// Runs the bounded retry loop over successful provider responses in
/// order: returns the first response's candidates together with how
/// many attempts were used, or `RetriesExhausted` once the cap is
/// hit. Responses past the first accepted one are never consumed.
pub fn produce(lex: &Lexicon, target: u32, responses: &Vec<String>, max_attempts: u32) -> (r:
    Result<(Vec<String>, usize), ProduceError>)
    requires
        lex.wf(),
    ensures
        (match r {
            Ok(pair) => 1 <= pair.1 <= responses@.len() && pair.1 <= max_attempts
                && candidates(lex@, responses@[pair.1 - 1]@, target).len() > 0
                && pair.0.deep_view() == candidates(lex@, responses@[pair.1 - 1]@, target)
                && (forall|k: int|
                0 <= k < pair.1 - 1 ==> candidates(
                    lex@,
                    (#[trigger] responses@[k])@,
                    target,
                ).len() == 0),
            Err(e) => e == ProduceError::RetriesExhausted && (forall|k: int|
                0 <= k < attempt_cap(responses@.len() as int, max_attempts as int)
                    ==> candidates(lex@, (#[trigger] responses@[k])@, target).len() == 0),
        }),
{
    let mut session = RetrySession::new(target, max_attempts);
    let mut k: usize = 0;
    while k < responses.len() && k < max_attempts as usize
        invariant
            k <= responses@.len(),
            k <= max_attempts,
            lex.wf(),
            session.target == target,
            session.attempts_left == max_attempts - k,
            forall|j: int|
                0 <= j < k ==> candidates(lex@, (#[trigger] responses@[j])@, target).len() == 0,
        decreases responses@.len() - k,
    {
        match session.step(lex, responses[k].as_str()) {
            StepOutcome::Accepted(c) => {
                return Ok((c, k + 1));
            },
            StepOutcome::Retry => {
                k = k + 1;
            },
            StepOutcome::Exhausted => {
                proof {
                    assert(max_attempts - k <= 1);
                    assert(attempt_cap(responses@.len() as int, max_attempts as int) <= k + 1);
                }
                return Err(ProduceError::RetriesExhausted);
            },
        }
    }
    proof {
        assert(attempt_cap(responses@.len() as int, max_attempts as int) <= k);
    }
    Err(ProduceError::RetriesExhausted)
}

} // verus!
