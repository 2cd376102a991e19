//! How long to wait before an invocation is tried again.

use vstd::arithmetic::power2::{lemma2_to64, lemma_pow2_unfold, pow2};
use vstd::prelude::*;

verus! {

/// The delay policy between attempts. Retries are numbered from 0: retry 0
/// follows the first failed attempt.
#[derive(Clone, Copy, Debug, PartialEq, Eq, Structural)]
pub enum BackoffPolicy {
    /// The same delay before every retry.
    Fixed { delay_ms: u64 },
    /// `base_ms` before retry 0, doubled for each further retry, never more
    /// than `max_ms`.
    Exponential { base_ms: u64, max_ms: u64 },
}

impl BackoffPolicy {
    /// The delay, in milliseconds, before retry number `retry`.
    pub open spec fn delay_spec(self, retry: nat) -> nat {
        match self {
            BackoffPolicy::Fixed { delay_ms } => delay_ms as nat,
            BackoffPolicy::Exponential { base_ms, max_ms } => {
                let grown = base_ms as nat * pow2(retry);
                if grown <= max_ms {
                    grown
                } else {
                    max_ms as nat
                }
            },
        }
    }

    /// The delay, in milliseconds, before retry number `retry`.
    pub fn delay(&self, retry: u8) -> (d: u64)
        ensures
            d == self.delay_spec(retry as nat),
    {
        match *self {
            BackoffPolicy::Fixed { delay_ms } => delay_ms,
            BackoffPolicy::Exponential { base_ms, max_ms } => {
                let mut d: u64 = if base_ms <= max_ms {
                    base_ms
                } else {
                    max_ms
                };
                let mut i: u8 = 0;
                proof {
                    lemma2_to64();
                }
                while i < retry
                    invariant
                        i <= retry,
                        d <= max_ms,
                        d == (BackoffPolicy::Exponential { base_ms, max_ms }).delay_spec(i as nat),
                    decreases retry - i,
                {
                    proof {
                        lemma_delay_doubles(base_ms, max_ms, i as nat);
                    }
                    d = if d >= max_ms - d {
                        max_ms
                    } else {
                        d + d
                    };
                    i = i + 1;
                }
                d
            },
        }
    }
}

/// One more retry doubles an exponential delay, up to its ceiling.
proof fn lemma_delay_doubles(base_ms: u64, max_ms: u64, retry: nat)
    ensures
        ({
            let p = BackoffPolicy::Exponential { base_ms, max_ms };
            let d = p.delay_spec(retry);
            p.delay_spec(retry + 1) == if 2 * d <= max_ms {
                2 * d
            } else {
                max_ms as nat
            }
        }),
{
    lemma_pow2_unfold(retry + 1);
    let b = base_ms as nat;
    let p = pow2(retry);
    assert(b * (2 * p) == 2 * (b * p)) by (nonlinear_arith);
}

/// A delay never shrinks from one retry to the next.
pub proof fn lemma_delay_monotonic(policy: BackoffPolicy, retry: nat)
    ensures
        policy.delay_spec(retry) <= policy.delay_spec(retry + 1),
{
    match policy {
        BackoffPolicy::Fixed { .. } => {},
        BackoffPolicy::Exponential { base_ms, max_ms } => {
            lemma_delay_doubles(base_ms, max_ms, retry);
        },
    }
}

} // verus!
