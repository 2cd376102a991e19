//! The retry controller: what to do with the result of one invocation.

use crate::backoff::BackoffPolicy;
use crate::outcome::{
    result_view, ActionOutcome, ActionOutcomeView, ActionResult, ActionResultView, CacheEntry,
    CacheEntryView, ErrorClass, FailureKind,
};
use vstd::prelude::*;

verus! {

/// Bounds the attempts made for one identifier.
#[derive(Clone, Copy, Debug, PartialEq, Eq)]
pub struct RetryController {
    /// How many times a transient failure is tried again.
    pub max_retries: u8,
    /// The delay between attempts.
    pub backoff: BackoffPolicy,
}

/// What the controller answers to the result of one invocation.
#[derive(Debug, PartialEq, Eq)]
pub enum RetryDecision {
    /// Invoke the action again after `delay_ms` milliseconds; `retries_used`
    /// retries are then spent.
    Retry { retries_used: u8, delay_ms: u64 },
    /// The outcome is definitive: record it.
    Finish(CacheEntry),
}

/// Mathematical value of a [`RetryDecision`].
pub enum RetryDecisionView {
    Retry { retries_used: nat, delay_ms: nat },
    Finish(CacheEntryView),
}

impl View for RetryDecision {
    type V = RetryDecisionView;

    open spec fn view(&self) -> RetryDecisionView {
        match self {
            RetryDecision::Retry { retries_used, delay_ms } => RetryDecisionView::Retry {
                retries_used: *retries_used as nat,
                delay_ms: *delay_ms as nat,
            },
            RetryDecision::Finish(entry) => RetryDecisionView::Finish(entry@),
        }
    }
}

/// The rule of the controller. A success and a permanent failure are
/// definitive at once; a transient failure is tried again while retries are
/// left, and becomes `RetriesExhausted`, with the last message, when none is.
/// The entry records the retries spent so far.
pub open spec fn decide_spec(
    max_retries: nat,
    backoff: BackoffPolicy,
    retries_used: nat,
    result: ActionResultView,
) -> RetryDecisionView {
    match result {
        Ok(receipt) => RetryDecisionView::Finish(
            CacheEntryView { outcome: ActionOutcomeView::Success(receipt), retry_count: retries_used },
        ),
        Err(e) => match e.class {
            ErrorClass::Permanent => RetryDecisionView::Finish(
                CacheEntryView {
                    outcome: ActionOutcomeView::Failure(FailureKind::Permanent, e.message),
                    retry_count: retries_used,
                },
            ),
            ErrorClass::Transient => if retries_used < max_retries {
                RetryDecisionView::Retry {
                    retries_used: retries_used + 1,
                    delay_ms: backoff.delay_spec(retries_used),
                }
            } else {
                RetryDecisionView::Finish(
                    CacheEntryView {
                        outcome: ActionOutcomeView::Failure(
                            FailureKind::RetriesExhausted,
                            e.message,
                        ),
                        retry_count: retries_used,
                    },
                )
            },
        },
    }
}

impl RetryController {
    /// A controller that allows `max_retries` retries, spaced by `backoff`.
    pub fn new(max_retries: u8, backoff: BackoffPolicy) -> (c: RetryController)
        ensures
            c.max_retries == max_retries,
            c.backoff == backoff,
    {
        RetryController { max_retries, backoff }
    }

    /// Decides on the result of one invocation, `retries_used` retries having
    /// been spent before it.
    pub fn decide(&self, retries_used: u8, result: ActionResult) -> (d: RetryDecision)
        ensures
            d@ == decide_spec(
                self.max_retries as nat,
                self.backoff,
                retries_used as nat,
                result_view(result),
            ),
    {
        match result {
            Ok(receipt) => RetryDecision::Finish(
                CacheEntry { outcome: ActionOutcome::Success(receipt), retry_count: retries_used },
            ),
            Err(e) => match e.class {
                ErrorClass::Permanent => RetryDecision::Finish(
                    CacheEntry {
                        outcome: ActionOutcome::Failure(FailureKind::Permanent, e.message),
                        retry_count: retries_used,
                    },
                ),
                ErrorClass::Transient => if retries_used < self.max_retries {
                    RetryDecision::Retry {
                        retries_used: retries_used + 1,
                        delay_ms: self.backoff.delay(retries_used),
                    }
                } else {
                    RetryDecision::Finish(
                        CacheEntry {
                            outcome: ActionOutcome::Failure(
                                FailureKind::RetriesExhausted,
                                e.message,
                            ),
                            retry_count: retries_used,
                        },
                    )
                },
            },
        }
    }
}

/// Where one identifier stands after a series of invocations.
pub struct Settled {
    /// The definitive entry, once there is one.
    pub entry: Option<CacheEntryView>,
    /// How many invocations were made.
    pub attempts: nat,
}

/// Runs the controller over the results that successive invocations hand
/// back, `retries_used` retries being spent already. Results after the
/// definitive one are never asked for and do not count.
pub open spec fn settle_from(
    max_retries: nat,
    backoff: BackoffPolicy,
    retries_used: nat,
    results: Seq<ActionResultView>,
) -> Settled
    decreases results.len(),
{
    if results.len() == 0 {
        Settled { entry: None, attempts: 0 }
    } else {
        match decide_spec(max_retries, backoff, retries_used, results[0]) {
            RetryDecisionView::Finish(entry) => Settled { entry: Some(entry), attempts: 1 },
            RetryDecisionView::Retry { retries_used: spent, .. } => {
                let rest = settle_from(max_retries, backoff, spent, results.drop_first());
                Settled { entry: rest.entry, attempts: rest.attempts + 1 }
            },
        }
    }
}

/// Runs the controller from the first invocation on.
pub open spec fn settle(
    max_retries: nat,
    backoff: BackoffPolicy,
    results: Seq<ActionResultView>,
) -> Settled {
    settle_from(max_retries, backoff, 0, results)
}

/// Whether a result is a transient failure.
pub open spec fn is_transient(result: ActionResultView) -> bool {
    result is Err && result->Err_0.class == ErrorClass::Transient
}

/// Whether a result is a permanent failure.
pub open spec fn is_permanent(result: ActionResultView) -> bool {
    result is Err && result->Err_0.class == ErrorClass::Permanent
}

proof fn lemma_settle_transient_prefix(
    max_retries: nat,
    backoff: BackoffPolicy,
    retries_used: nat,
    results: Seq<ActionResultView>,
    n: nat,
)
    requires
        n <= results.len(),
        retries_used + n <= max_retries,
        forall|i: int| 0 <= i < n ==> is_transient(#[trigger] results[i]),
    ensures
        ({
            let whole = settle_from(max_retries, backoff, retries_used, results);
            let rest = settle_from(
                max_retries,
                backoff,
                retries_used + n,
                results.subrange(n as int, results.len() as int),
            );
            whole.entry == rest.entry && whole.attempts == rest.attempts + n
        }),
    decreases n,
{
    if n == 0 {
        assert(results.subrange(0, results.len() as int) =~= results);
    } else {
        assert(is_transient(results[0]));
        let tail = results.drop_first();
        assert forall|i: int| 0 <= i < n - 1 implies is_transient(#[trigger] tail[i]) by {
            assert(tail[i] == results[i + 1]);
        }
        lemma_settle_transient_prefix(max_retries, backoff, retries_used + 1, tail, (n - 1) as nat);
        assert(tail.subrange(n - 1, tail.len() as int) =~= results.subrange(
            n as int,
            results.len() as int,
        ));
    }
}

/// Retry bound. An action that fails transiently exactly `max_retries` times
/// and then succeeds ends in success; the entry records `max_retries` retries,
/// and `max_retries + 1` invocations were made.
pub proof fn lemma_succeeds_on_last_retry(
    max_retries: nat,
    backoff: BackoffPolicy,
    results: Seq<ActionResultView>,
    receipt: Seq<char>,
)
    requires
        results.len() > max_retries,
        forall|i: int| 0 <= i < max_retries ==> is_transient(#[trigger] results[i]),
        results[max_retries as int] == Ok::<Seq<char>, crate::outcome::ClassifiedErrorView>(
            receipt,
        ),
    ensures
        settle(max_retries, backoff, results) == (Settled {
            entry: Some(
                CacheEntryView {
                    outcome: ActionOutcomeView::Success(receipt),
                    retry_count: max_retries,
                },
            ),
            attempts: max_retries + 1,
        }),
{
    lemma_settle_transient_prefix(max_retries, backoff, 0, results, max_retries);
    let rest = results.subrange(max_retries as int, results.len() as int);
    assert(rest[0] == results[max_retries as int]);
}

/// Success after fewer failures. An action that fails transiently `k` times,
/// `k` within the allowance, and then succeeds ends in success with `k`
/// retries recorded, after `k + 1` invocations.
pub proof fn lemma_succeeds_after_failures(
    max_retries: nat,
    backoff: BackoffPolicy,
    results: Seq<ActionResultView>,
    k: nat,
    receipt: Seq<char>,
)
    requires
        k <= max_retries,
        results.len() > k,
        forall|i: int| 0 <= i < k ==> is_transient(#[trigger] results[i]),
        results[k as int] == Ok::<Seq<char>, crate::outcome::ClassifiedErrorView>(receipt),
    ensures
        settle(max_retries, backoff, results) == (Settled {
            entry: Some(
                CacheEntryView { outcome: ActionOutcomeView::Success(receipt), retry_count: k },
            ),
            attempts: k + 1,
        }),
{
    lemma_settle_transient_prefix(max_retries, backoff, 0, results, k);
    let rest = results.subrange(k as int, results.len() as int);
    assert(rest[0] == results[k as int]);
}

/// Exhaustion. An action that keeps failing transiently ends in
/// `RetriesExhausted` with the message of the last attempt, after exactly
/// `max_retries + 1` invocations, all retries being recorded as spent.
pub proof fn lemma_exhausts_after_all_retries(
    max_retries: nat,
    backoff: BackoffPolicy,
    results: Seq<ActionResultView>,
)
    requires
        results.len() > max_retries,
        forall|i: int| 0 <= i <= max_retries ==> is_transient(#[trigger] results[i]),
    ensures
        settle(max_retries, backoff, results) == (Settled {
            entry: Some(
                CacheEntryView {
                    outcome: ActionOutcomeView::Failure(
                        FailureKind::RetriesExhausted,
                        results[max_retries as int]->Err_0.message,
                    ),
                    retry_count: max_retries,
                },
            ),
            attempts: max_retries + 1,
        }),
{
    lemma_settle_transient_prefix(max_retries, backoff, 0, results, max_retries);
    let rest = results.subrange(max_retries as int, results.len() as int);
    assert(rest[0] == results[max_retries as int]);
    assert(is_transient(results[max_retries as int]));
}

/// Permanent failures are not retried. Whatever the allowance, an action
/// whose first result is a permanent failure is invoked exactly once, and the
/// entry holds that failure with no retry spent.
pub proof fn lemma_permanent_failure_is_final(
    max_retries: nat,
    backoff: BackoffPolicy,
    results: Seq<ActionResultView>,
)
    requires
        results.len() > 0,
        is_permanent(results[0]),
    ensures
        settle(max_retries, backoff, results) == (Settled {
            entry: Some(
                CacheEntryView {
                    outcome: ActionOutcomeView::Failure(
                        FailureKind::Permanent,
                        results[0]->Err_0.message,
                    ),
                    retry_count: 0,
                },
            ),
            attempts: 1,
        }),
{
}

/// No series of results makes the controller invoke an action more than
/// `max_retries + 1` times, and the retries it records never exceed the
/// allowance.
pub proof fn lemma_attempts_bounded(
    max_retries: nat,
    backoff: BackoffPolicy,
    retries_used: nat,
    results: Seq<ActionResultView>,
)
    requires
        retries_used <= max_retries,
    ensures
        ({
            let s = settle_from(max_retries, backoff, retries_used, results);
            &&& s.attempts <= results.len()
            &&& s.attempts + retries_used <= max_retries + 1
            &&& s.entry is Some ==> s.entry->Some_0.retry_count + 1 == s.attempts + retries_used
            &&& s.entry is None ==> s.attempts == results.len()
        }),
    decreases results.len(),
{
    if results.len() > 0 {
        match decide_spec(max_retries, backoff, retries_used, results[0]) {
            RetryDecisionView::Finish(_) => {},
            RetryDecisionView::Retry { retries_used: spent, .. } => {
                lemma_attempts_bounded(max_retries, backoff, spent, results.drop_first());
            },
        }
    }
}

} // verus!
