//! The status of a remote call, and the policy by which a failed call is tried again.

use vstd::prelude::*;

verus! {

/// The status codes that cross the API boundary.
#[derive(Clone, Copy, Debug, PartialEq, Eq, Structural)]
pub enum RpcCode {
    Success,
    Unknown,
    InvalidArgument,
    DeadlineExceeded,
    NotFound,
    Internal,
    Unavailable,
}

/// The number of a status code on the wire.
pub open spec fn code_number(code: RpcCode) -> i32 {
    match code {
        RpcCode::Success => 0,
        RpcCode::Unknown => 2,
        RpcCode::InvalidArgument => 3,
        RpcCode::DeadlineExceeded => 4,
        RpcCode::NotFound => 5,
        RpcCode::Internal => 13,
        RpcCode::Unavailable => 14,
    }
}

/// True for the failures of the transport, which a caller may try again.
pub open spec fn is_transport_failure(code: RpcCode) -> bool {
    code == RpcCode::Unavailable || code == RpcCode::DeadlineExceeded
}

impl RpcCode {
    /// The number of this code on the wire.
    pub fn number(self) -> (n: i32)
        ensures
            n == code_number(self),
    {
        match self {
            RpcCode::Success => 0,
            RpcCode::Unknown => 2,
            RpcCode::InvalidArgument => 3,
            RpcCode::DeadlineExceeded => 4,
            RpcCode::NotFound => 5,
            RpcCode::Internal => 13,
            RpcCode::Unavailable => 14,
        }
    }

    /// The code that a number on the wire stands for; `Unknown` for any other number.
    pub fn from_number(n: i32) -> (code: RpcCode)
        ensures
            code == (if n == 0 {
                RpcCode::Success
            } else if n == 3 {
                RpcCode::InvalidArgument
            } else if n == 4 {
                RpcCode::DeadlineExceeded
            } else if n == 5 {
                RpcCode::NotFound
            } else if n == 13 {
                RpcCode::Internal
            } else if n == 14 {
                RpcCode::Unavailable
            } else {
                RpcCode::Unknown
            }),
            code != RpcCode::Unknown ==> code_number(code) == n,
    {
        if n == 0 {
            RpcCode::Success
        } else if n == 3 {
            RpcCode::InvalidArgument
        } else if n == 4 {
            RpcCode::DeadlineExceeded
        } else if n == 5 {
            RpcCode::NotFound
        } else if n == 13 {
            RpcCode::Internal
        } else if n == 14 {
            RpcCode::Unavailable
        } else {
            RpcCode::Unknown
        }
    }

    /// True for the failures of the transport, which a caller may try again.
    pub fn is_transport(self) -> (yes: bool)
        ensures
            yes == is_transport_failure(self),
    {
        match self {
            RpcCode::Unavailable => true,
            RpcCode::DeadlineExceeded => true,
            _ => false,
        }
    }
}

/// How a remote call ended, where it did not end well: a code and a message for people.
#[derive(Debug, PartialEq, Eq)]
pub struct RpcStatus {
    pub code: RpcCode,
    pub message: String,
}

impl Clone for RpcStatus {
    fn clone(&self) -> (copy: Self)
        ensures
            copy.code == self.code,
            copy.message@ == self.message@,
    {
        RpcStatus { code: self.code, message: self.message.clone() }
    }
}

/// How often and how long a caller waits before it tries a failed call again.
#[derive(Clone, Copy, Debug, PartialEq, Eq, Structural)]
pub struct RetryPolicy {
    /// How many times a call is tried again at most.
    pub max_retries: u32,
    /// The wait before the first retry, in milliseconds.
    pub base_ms: u64,
    /// By how much the wait grows from one retry to the next.
    pub factor: u64,
    /// How far the wait may be off its nominal length, in percent of it.
    pub jitter_percent: u64,
}

/// `base` times `factor` to the power `retry`.
pub open spec fn grown(base: nat, factor: nat, retry: nat) -> nat
    decreases retry,
{
    if retry == 0 {
        base
    } else {
        grown(base, factor, (retry - 1) as nat) * factor
    }
}

/// The nominal wait before the retry number `retry` (the first is number 0).
pub open spec fn nominal_wait(policy: RetryPolicy, retry: nat) -> nat {
    grown(policy.base_ms as nat, policy.factor as nat, retry)
}

/// The shortest wait that the jitter allows.
pub open spec fn shortest_wait(policy: RetryPolicy, retry: nat) -> nat {
    (nominal_wait(policy, retry) * (100 - policy.jitter_percent) / 100) as nat
}

/// The longest wait that the jitter allows.
pub open spec fn longest_wait(policy: RetryPolicy, retry: nat) -> nat {
    (nominal_wait(policy, retry) * (100 + policy.jitter_percent) / 100) as nat
}

/// What a caller does after a call has failed.
#[derive(Clone, Copy, Debug, PartialEq, Eq, Structural)]
pub enum RetryDecision {
    /// Wait between `min_ms` and `max_ms` milliseconds, then try again.
    RetryAfter { min_ms: u64, max_ms: u64 },
    /// Report the failure.
    GiveUp,
}

/// What the policy asks for after the failure `code` of a call that was already tried
/// again `retries` times: another try where the failure is one of the transport, the
/// cap is not reached and the wait can be told in milliseconds.
pub open spec fn decision_of(policy: RetryPolicy, code: RpcCode, retries: u32) -> RetryDecision {
    if is_transport_failure(code) && retries < policy.max_retries && policy.jitter_percent <= 100
        && longest_wait(policy, retries as nat) <= u64::MAX {
        RetryDecision::RetryAfter {
            min_ms: shortest_wait(policy, retries as nat) as u64,
            max_ms: longest_wait(policy, retries as nat) as u64,
        }
    } else {
        RetryDecision::GiveUp
    }
}

/// The waits grow with the retries.
pub proof fn lemma_grown_monotonic(base: nat, factor: nat, earlier: nat, later: nat)
    requires
        factor >= 1,
        earlier <= later,
    ensures
        grown(base, factor, earlier) <= grown(base, factor, later),
    decreases later,
{
    if earlier < later {
        lemma_grown_monotonic(base, factor, earlier, (later - 1) as nat);
        let before = grown(base, factor, (later - 1) as nat);
        assert(before <= before * factor) by (nonlinear_arith)
            requires
                factor >= 1,
        ;
    }
}

impl RetryPolicy {
    /// Three retries, the first after 100 ms, each wait twice the one before, up to a
    /// fifth more or less.
    pub fn standard() -> (policy: RetryPolicy)
        ensures
            policy == (RetryPolicy { max_retries: 3, base_ms: 100, factor: 2, jitter_percent: 20 }),
    {
        RetryPolicy { max_retries: 3, base_ms: 100, factor: 2, jitter_percent: 20 }
    }

    /// The nominal wait before the retry number `retry`, where it can be told in
    /// milliseconds.
    pub fn nominal_wait_ms(&self, retry: u32) -> (wait: Option<u64>)
        ensures
            match wait {
                Some(ms) => ms == nominal_wait(*self, retry as nat),
                None => nominal_wait(*self, retry as nat) > u64::MAX,
            },
    {
        let mut wait: u64 = self.base_ms;
        let mut i: u32 = 0;
        while i < retry
            invariant
                i <= retry,
                wait == nominal_wait(*self, i as nat),
            decreases retry - i,
        {
            match wait.checked_mul(self.factor) {
                Some(next) => {
                    wait = next;
                },
                None => {
                    proof {
                        let at = (i + 1) as nat;
                        assert(nominal_wait(*self, at) > u64::MAX);
                        if self.factor >= 1 {
                            lemma_grown_monotonic(
                                self.base_ms as nat,
                                self.factor as nat,
                                at,
                                retry as nat,
                            );
                        } else {
                            assert(wait * self.factor == 0) by (nonlinear_arith)
                                requires
                                    self.factor == 0,
                            ;
                        }
                    }
                    return None;
                },
            }
            i += 1;
        }
        Some(wait)
    }

    /// What to do after the failure `code` of a call that was already tried again
    /// `retries` times.
    pub fn decide(&self, code: RpcCode, retries: u32) -> (decision: RetryDecision)
        ensures
            decision == decision_of(*self, code, retries),
    {
        if !code.is_transport() || retries >= self.max_retries || self.jitter_percent > 100 {
            return RetryDecision::GiveUp;
        }
        let nominal = match self.nominal_wait_ms(retries) {
            Some(ms) => ms,
            None => {
                assert(longest_wait(*self, retries as nat) >= nominal_wait(*self, retries as nat))
                    by (nonlinear_arith)
                    requires
                        longest_wait(*self, retries as nat) == nominal_wait(*self, retries as nat)
                            * (100 + self.jitter_percent) / 100,
                ;
                return RetryDecision::GiveUp;
            },
        };
        let more: u128 = (100 + self.jitter_percent) as u128;
        let less: u128 = (100 - self.jitter_percent) as u128;
        assert((nominal as u128) * more <= 0xffff_ffff_ffff_ffff * 200) by (nonlinear_arith)
            requires
                nominal <= 0xffff_ffff_ffff_ffff,
                more <= 200,
        ;
        assert((nominal as u128) * less <= (nominal as u128) * 100) by (nonlinear_arith)
            requires
                less <= 100,
        ;
        let wide = (nominal as u128) * more / 100;
        if wide > u64::MAX as u128 {
            return RetryDecision::GiveUp;
        }
        let longest = wide as u64;
        let shortest = ((nominal as u128) * less / 100) as u64;
        RetryDecision::RetryAfter { min_ms: shortest, max_ms: longest }
    }
}

} // verus!
