use vstd::prelude::*;

verus! {

/// How publishing is paced and retried.
pub struct Policy {
    /// How many push attempts are made for one commit before giving up.
    pub max_push_attempts: u32,
    /// The wait before the first retry; each later retry waits twice as long.
    pub backoff_base_secs: u64,
    /// The longest wait between two attempts.
    pub max_backoff_secs: u64,
    /// The wait after each published commit.
    pub pacing_secs: u64,
    /// Whether to wait after the last commit too.
    pub pace_after_last: bool,
}

/// Two to the power `n`.
pub open spec fn pow2(n: nat) -> nat
    decreases n,
{
    if n == 0 {
        1
    } else {
        2 * pow2((n - 1) as nat)
    }
}

/// `base` doubled `n` times, held at the largest `u64` once it exceeds it.
pub open spec fn backoff_spec(base: u64, n: nat) -> u64 {
    if base * pow2(n) >= u64::MAX {
        u64::MAX
    } else {
        (base * pow2(n)) as u64
    }
}

/// The default policy: one hour between commits, five push attempts,
/// retries starting after two seconds and waiting at most five minutes.
pub fn standard_policy() -> (r: Policy)
    ensures
        r.max_push_attempts == 5,
        r.backoff_base_secs == 2,
        r.max_backoff_secs == 300,
        r.pacing_secs == 3600,
        r.pace_after_last,
{
    Policy {
        max_push_attempts: 5,
        backoff_base_secs: 2,
        max_backoff_secs: 300,
        pacing_secs: 3600,
        pace_after_last: true,
    }
}

/// After push attempt `attempt` (counted from zero) failed: the wait before
/// the next attempt (doubling from the base, never above the policy's
/// longest wait), or none when the attempts are used up and the failure is
/// final.
pub fn retry_delay(policy: &Policy, attempt: u32) -> (r: Option<u64>)
    ensures
        r == if (attempt as int) + 1 < policy.max_push_attempts {
            Some(
                if backoff_spec(policy.backoff_base_secs, attempt as nat) < policy.max_backoff_secs {
                    backoff_spec(policy.backoff_base_secs, attempt as nat)
                } else {
                    policy.max_backoff_secs
                },
            )
        } else {
            None
        },
{
    if attempt as u64 + 1 >= policy.max_push_attempts as u64 {
        return None;
    }
    let base = policy.backoff_base_secs;
    let mut d: u64 = base;
    let mut i: u32 = 0;
    assert(pow2(0) == 1);
    assert(base * pow2(0) == base);
    while i < attempt
        invariant
            i <= attempt,
            d == backoff_spec(base, i as nat),
        decreases attempt - i,
    {
        proof {
            let n = i as nat;
            assert(pow2(n + 1) == 2 * pow2(n));
            assert(base * pow2(n + 1) == 2 * (base * pow2(n))) by (nonlinear_arith)
                requires
                    pow2(n + 1) == 2 * pow2(n),
            ;
            assert(base * pow2(n) >= 0) by (nonlinear_arith);
        }
        if d > u64::MAX / 2 {
            d = u64::MAX;
        } else {
            d = d * 2;
        }
        i = i + 1;
    }
    proof {
        assert(pow2(0) == 1);
    }
    if d < policy.max_backoff_secs {
        Some(d)
    } else {
        Some(policy.max_backoff_secs)
    }
}

/// The wait after publishing commit `index` of `total`: none after the last
/// one unless the policy asks for it.
pub fn pacing_delay(policy: &Policy, index: usize, total: usize) -> (r: u64)
    ensures
        r == if index as int + 1 == total && !policy.pace_after_last {
            0
        } else {
            policy.pacing_secs
        },
{
    if total > 0 && index == total - 1 && !policy.pace_after_last {
        0
    } else {
        policy.pacing_secs
    }
}

} // verus!
