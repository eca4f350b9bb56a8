//! Tracing transactions on a node that limits the rate of requests.
use vstd::prelude::*;

use crate::counters::bumped;
use crate::json::{json_of, json_text};
use crate::prestate::{accounts_view, diff_accesses};
use crate::trace::{
    is_rate_limited, mentions_rate_limit, simulation_of_response, SimulatedTransaction,
};

verus! {

/// How long to wait before a refused request is repeated.
pub const RETRY_DELAY_MS: u64 = 2000;

/// How often requests were refused, and how their repetitions ended.
#[derive(Debug, Clone, Copy, PartialEq, Eq)]
pub struct RetryCounters {
    pub rate_limited: u64,
    pub retries_success: u64,
    pub retries_failed: u64,
}

/// What follows on an attempt.
#[derive(Debug, Clone, Copy, PartialEq, Eq, Structural)]
pub enum RetryStep {
    Done,
    /// Repeat the request after so many milliseconds.
    RetryAfter(u64),
    Fail,
}

impl Default for RetryCounters {
    fn default() -> (res: Self)
        ensures
            res == (RetryCounters { rate_limited: 0, retries_success: 0, retries_failed: 0 }),
    {
        RetryCounters { rate_limited: 0, retries_success: 0, retries_failed: 0 }
    }
}

/// What an attempt brought: the storage accesses of a transaction, or the text
/// of what went wrong, on the way or at the node.
pub fn attempt_outcome(response: &Result<serde_json::Value, String>, tx_index: u32) -> (res: Result<
    SimulatedTransaction,
    String,
>)
    ensures
        match response {
            Err(text) => res matches Err(other) && other@ == text@,
            Ok(value) => match (json_of(*value).get("error"@), json_of(*value).get("result"@)) {
                (Some(error), _) => res matches Err(text) && text@ == "RPC returned error: "@
                    + json_text(error),
                (None, Some(result)) => res matches Ok(simulation) && simulation.tx_index
                    == tx_index && accounts_view(simulation.accounts@) == diff_accesses(
                    result,
                    tx_index,
                ),
                (None, None) => res matches Err(text) && text@ == "No result field. Response: "@
                    + json_text(json_of(*value)),
            },
        },
{
    match response {
        Ok(value) => match simulation_of_response(value, tx_index) {
            Ok(simulation) => Ok(simulation),
            Err(error) => Err(error.message()),
        },
        Err(text) => Err(text.clone()),
    }
}

impl RetryCounters {
    /// Decides on the first attempt: one that failed because the node refuses
    /// further requests is repeated once.
    pub fn after_first(&mut self, failure: Option<&str>) -> (res: RetryStep)
        ensures
            match failure {
                None => res == RetryStep::Done && *final(self) == *old(self),
                Some(text) => if mentions_rate_limit(text@) {
                    &&& res == RetryStep::RetryAfter(RETRY_DELAY_MS)
                    &&& *final(self) == (RetryCounters {
                        rate_limited: bumped(old(self).rate_limited),
                        ..*old(self)
                    })
                } else {
                    res == RetryStep::Fail && *final(self) == *old(self)
                },
            },
    {
        match failure {
            None => RetryStep::Done,
            Some(text) => {
                if is_rate_limited(text) {
                    self.rate_limited = self.rate_limited.wrapping_add(1);
                    RetryStep::RetryAfter(RETRY_DELAY_MS)
                } else {
                    RetryStep::Fail
                }
            },
        }
    }

    /// Decides on the repetition, which is not repeated again.
    pub fn after_retry(&mut self, succeeded: bool) -> (res: RetryStep)
        ensures
            if succeeded {
                &&& res == RetryStep::Done
                &&& *final(self) == (RetryCounters {
                    retries_success: bumped(old(self).retries_success),
                    ..*old(self)
                })
            } else {
                &&& res == RetryStep::Fail
                &&& *final(self) == (RetryCounters {
                    retries_failed: bumped(old(self).retries_failed),
                    ..*old(self)
                })
            },
    {
        if succeeded {
            self.retries_success = self.retries_success.wrapping_add(1);
            RetryStep::Done
        } else {
            self.retries_failed = self.retries_failed.wrapping_add(1);
            RetryStep::Fail
        }
    }
}

/// A text says that a node refuses further requests exactly if the digits 4, 2
/// and 9 stand in it one after the other, wherever that is.
pub proof fn law_rate_limit_is_found_anywhere(text: Seq<char>)
    ensures
        mentions_rate_limit(text) <==> exists|i: int|
            0 <= i && i + 2 < text.len() && #[trigger] text[i] == '4' && text[i + 1] == '2'
                && text[i + 2] == '9',
{
    reveal_strlit("429");
    if mentions_rate_limit(text) {
        let i = choose|i: int|
            0 <= i && i + 3 <= text.len() && #[trigger] text.subrange(i, i + 3) == "429"@;
        let part = text.subrange(i, i + 3);
        assert(part[0] == text[i] && part[1] == text[i + 1] && part[2] == text[i + 2]);
    }
    if exists|i: int|
        0 <= i && i + 2 < text.len() && #[trigger] text[i] == '4' && text[i + 1] == '2' && text[i
            + 2] == '9' {
        let i = choose|i: int|
            0 <= i && i + 2 < text.len() && #[trigger] text[i] == '4' && text[i + 1] == '2'
                && text[i + 2] == '9';
        assert(text.subrange(i, i + 3) =~= "429"@);
    }
}

/// A refused request is repeated after two seconds.
pub proof fn law_refused_requests_wait_two_seconds()
    ensures
        RETRY_DELAY_MS == 2000,
{
}

} // verus!
