//! The rate limiter: it spaces the starts of invocations so that no more
//! than a given number of them fall in any one second.
//!
//! Time is a count of nanoseconds from an origin that the driver chooses.
//! The limiter never refuses: it answers every request with the instant at
//! which the invocation may start.

use vstd::arithmetic::div_mod::lemma_fundamental_div_mod;
use vstd::prelude::*;

verus! {

/// Nanoseconds in one second.
pub const NANOS_PER_SECOND: u64 = 1_000_000_000;

/// The least spacing between two starts, in nanoseconds, that keeps `rate`
/// starts per second: a second divided by `rate`, rounded up.
pub open spec fn interval_for(rate: nat) -> nat
    recommends
        rate > 0,
{
    if NANOS_PER_SECOND as nat % rate == 0 {
        NANOS_PER_SECOND as nat / rate
    } else {
        NANOS_PER_SECOND as nat / rate + 1
    }
}

/// `rate` intervals cover a second.
pub proof fn lemma_interval_covers_second(rate: nat)
    requires
        rate > 0,
    ensures
        interval_for(rate) >= 1,
        rate * interval_for(rate) >= NANOS_PER_SECOND,
{
    let n = NANOS_PER_SECOND as int;
    let r = rate as int;
    lemma_fundamental_div_mod(n, r);
    let q = n / r;
    let m = n % r;
    assert(0 <= m < r);
    assert(r * (q + 1) == r * q + r) by (nonlinear_arith);
    if m == 0 {
        assert(q >= 1) by (nonlinear_arith)
            requires
                r * q == 1_000_000_000,
                r > 0,
        ;
    } else {
        assert(q >= 0) by (nonlinear_arith)
            requires
                r * q + m == 1_000_000_000,
                0 <= m < r,
        ;
    }
}

/// The instant granted to a request made at `now`, the limiter being free
/// from `next_free` on.
pub open spec fn grant_spec(next_free: u64, now: u64) -> u64 {
    if now >= next_free {
        now
    } else {
        next_free
    }
}

/// From when the limiter is free again after granting `grant`. The clock
/// ends at `u64::MAX`.
pub open spec fn next_free_spec(rate: nat, grant: u64) -> u64 {
    if grant + interval_for(rate) <= u64::MAX {
        (grant + interval_for(rate)) as u64
    } else {
        u64::MAX
    }
}

/// The instants granted to requests made, in this order, at `nows`.
pub open spec fn schedule(rate: nat, next_free: u64, nows: Seq<u64>) -> Seq<u64>
    decreases nows.len(),
{
    if nows.len() == 0 {
        Seq::empty()
    } else {
        let grant = grant_spec(next_free, nows[0]);
        seq![grant] + schedule(rate, next_free_spec(rate, grant), nows.drop_first())
    }
}

/// The shared budget of starts.
#[derive(Debug)]
pub struct RateLimiter {
    rate_limit: usize,
    interval: u64,
    next_free: u64,
}

impl RateLimiter {
    /// The number of starts allowed per second.
    pub closed spec fn rate(&self) -> nat {
        self.rate_limit as nat
    }

    /// The first instant at which a start can be granted.
    pub closed spec fn next_free(&self) -> u64 {
        self.next_free
    }

    /// The rate is positive and the spacing is the one that belongs to it.
    pub closed spec fn wf(&self) -> bool {
        &&& self.rate_limit > 0
        &&& self.interval as nat == interval_for(self.rate_limit as nat)
    }

    /// A limiter that allows `rate_limit` starts per second and is free at
    /// once.
    pub fn new(rate_limit: usize) -> (limiter: RateLimiter)
        requires
            rate_limit > 0,
        ensures
            limiter.wf(),
            limiter.rate() == rate_limit,
            limiter.next_free() == 0,
    {
        let rate: u64 = rate_limit as u64;
        let quotient: u64 = NANOS_PER_SECOND / rate;
        let interval: u64 = if NANOS_PER_SECOND % rate == 0 {
            quotient
        } else {
            proof {
                lemma_interval_covers_second(rate_limit as nat);
                assert(quotient <= NANOS_PER_SECOND) by (nonlinear_arith)
                    requires
                        quotient == NANOS_PER_SECOND as int / rate as int,
                        rate > 0,
                ;
            }
            quotient + 1
        };
        RateLimiter { rate_limit, interval, next_free: 0 }
    }

    /// The number of starts allowed per second.
    pub fn rate_limit(&self) -> (rate: usize)
        ensures
            rate == self.rate(),
    {
        self.rate_limit
    }

    /// Takes one start from the budget for a request made at `now` and
    /// returns the instant at which the invocation may start: `now` if the
    /// limiter is free, else the instant at which it becomes free. The caller
    /// waits until then.
    pub fn acquire(&mut self, now: u64) -> (grant: u64)
        requires
            old(self).wf(),
        ensures
            final(self).wf(),
            final(self).rate() == old(self).rate(),
            grant == grant_spec(old(self).next_free(), now),
            final(self).next_free() == next_free_spec(old(self).rate(), grant),
    {
        let grant: u64 = if now >= self.next_free {
            now
        } else {
            self.next_free
        };
        self.next_free = grant.saturating_add(self.interval);
        grant
    }
}

/// Whether the clock did not run out while the requests at `nows` were
/// served.
pub open spec fn within_clock(rate: nat, next_free: u64, nows: Seq<u64>) -> bool {
    nows.len() > 0 ==> schedule(rate, next_free, nows).last() + interval_for(rate) <= u64::MAX
}

proof fn lemma_schedule_len(rate: nat, next_free: u64, nows: Seq<u64>)
    ensures
        schedule(rate, next_free, nows).len() == nows.len(),
    decreases nows.len(),
{
    if nows.len() > 0 {
        let grant = grant_spec(next_free, nows[0]);
        lemma_schedule_len(rate, next_free_spec(rate, grant), nows.drop_first());
    }
}

proof fn lemma_schedule_step(rate: nat, next_free: u64, nows: Seq<u64>, i: int)
    requires
        rate > 0,
        0 <= i < nows.len(),
    ensures
        schedule(rate, next_free, nows).len() == nows.len(),
        schedule(rate, next_free, nows)[i] >= nows[i],
        schedule(rate, next_free, nows)[i] >= next_free,
        i + 1 < nows.len() ==> schedule(rate, next_free, nows)[i + 1] >= next_free_spec(
            rate,
            schedule(rate, next_free, nows)[i],
        ),
    decreases nows.len(),
{
    lemma_schedule_len(rate, next_free, nows);
    let grant = grant_spec(next_free, nows[0]);
    let after = next_free_spec(rate, grant);
    let tail = nows.drop_first();
    lemma_schedule_len(rate, after, tail);
    let s = schedule(rate, next_free, nows);
    let t = schedule(rate, after, tail);
    assert(s =~= seq![grant] + t);
    if i == 0 {
        if nows.len() > 1 {
            lemma_schedule_step(rate, after, tail, 0);
            assert(s[1] == t[0]);
        }
    } else {
        lemma_schedule_step(rate, after, tail, i - 1);
        assert(s[i] == t[i - 1]);
        assert(tail[i - 1] == nows[i]);
        lemma_interval_covers_second(rate);
        if i + 1 < nows.len() {
            assert(s[i + 1] == t[i]);
        }
    }
}

/// Spacing. While the clock lasts, two granted instants are at least as many
/// intervals apart as there are grants between them.
pub proof fn lemma_grants_spaced(rate: nat, next_free: u64, nows: Seq<u64>, i: int, j: int)
    requires
        rate > 0,
        0 <= i <= j < nows.len(),
        within_clock(rate, next_free, nows),
    ensures
        schedule(rate, next_free, nows).len() == nows.len(),
        schedule(rate, next_free, nows)[j] - schedule(rate, next_free, nows)[i] >= (j - i)
            * interval_for(rate),
    decreases j - i,
{
    let s = schedule(rate, next_free, nows);
    let step = interval_for(rate) as int;
    lemma_schedule_len(rate, next_free, nows);
    lemma_interval_covers_second(rate);
    if i < j {
        lemma_schedule_step(rate, next_free, nows, j - 1);
        lemma_grants_never_decrease(rate, next_free, nows, j, nows.len() - 1);
        assert(s[j - 1] + step <= u64::MAX) by {
            lemma_grants_never_decrease(rate, next_free, nows, j - 1, nows.len() - 1);
        }
        lemma_grants_spaced(rate, next_free, nows, i, j - 1);
        assert((j - i) * step == (j - 1 - i) * step + step) by (nonlinear_arith);
    } else {
        assert((j - i) * step == 0) by (nonlinear_arith)
            requires
                j - i == 0,
        ;
    }
}

/// Granted instants never go back.
pub proof fn lemma_grants_never_decrease(
    rate: nat,
    next_free: u64,
    nows: Seq<u64>,
    i: int,
    j: int,
)
    requires
        rate > 0,
        0 <= i <= j < nows.len(),
    ensures
        schedule(rate, next_free, nows).len() == nows.len(),
        schedule(rate, next_free, nows)[i] <= schedule(rate, next_free, nows)[j],
    decreases j - i,
{
    lemma_schedule_len(rate, next_free, nows);
    lemma_interval_covers_second(rate);
    if i < j {
        lemma_grants_never_decrease(rate, next_free, nows, i, j - 1);
        lemma_schedule_step(rate, next_free, nows, j - 1);
    }
}

/// Rate bound. While the clock lasts, serving `k` requests at `rate` starts
/// per second takes, from the first granted start to the last, at least
/// `(k - 1) / rate` seconds: `rate` times the nanoseconds between them is at
/// least `k - 1` seconds' worth of nanoseconds.
pub proof fn lemma_rate_bound(rate: nat, next_free: u64, nows: Seq<u64>)
    requires
        rate > 0,
        nows.len() > 0,
        within_clock(rate, next_free, nows),
    ensures
        schedule(rate, next_free, nows).len() == nows.len(),
        rate * (schedule(rate, next_free, nows).last() - schedule(rate, next_free, nows)[0])
            >= (nows.len() - 1) * NANOS_PER_SECOND,
{
    let s = schedule(rate, next_free, nows);
    let k = nows.len() as int;
    let step = interval_for(rate) as int;
    let span = s[k - 1] - s[0];
    let r = rate as int;
    lemma_grants_spaced(rate, next_free, nows, 0, k - 1);
    lemma_interval_covers_second(rate);
    assert(r * span >= (k - 1) * 1_000_000_000) by (nonlinear_arith)
        requires
            span >= (k - 1) * step,
            r * step >= 1_000_000_000,
            r > 0,
            k >= 1,
    ;
}

/// No window of one second holds more than `rate` starts: while the clock
/// lasts, the start granted `rate` requests after another comes a full second
/// later or more.
pub proof fn lemma_window_holds_at_most_rate(rate: nat, next_free: u64, nows: Seq<u64>, i: int)
    requires
        rate > 0,
        0 <= i,
        i + rate < nows.len(),
        within_clock(rate, next_free, nows),
    ensures
        schedule(rate, next_free, nows).len() == nows.len(),
        schedule(rate, next_free, nows)[i + rate] - schedule(rate, next_free, nows)[i]
            >= NANOS_PER_SECOND,
{
    lemma_grants_spaced(rate, next_free, nows, i, i + rate);
    lemma_interval_covers_second(rate);
}

} // verus!
