//! The batch runner: it hands the identifiers of a run out to workers, one
//! start at a time, and records what comes back.
//!
//! The runner is a state machine. A driver asks it for the next start
//! ([`BatchRunner::dispatch`]), invokes the action, and reports each result
//! ([`BatchRunner::complete`]); the runner answers with what to do next. It
//! neither waits nor invokes anything itself.

use crate::backoff::BackoffPolicy;
use crate::cache::{is_success, CacheView, ProgressCache};
use crate::error::RunError;
use crate::keyed::{texts, StringMap};
use crate::limiter::{grant_spec, next_free_spec, RateLimiter};
use crate::outcome::{
    detail_of, result_view, ActionResult, ActionResultView, CacheEntry, CacheEntryView,
};
use crate::retry::{decide_spec, RetryController, RetryDecision, RetryDecisionView};
use crate::summary::{FailedItem, RunSummary, RunSummaryView};
use crate::value::{covers, value_of, NewValue};
use crate::worklist::{lemma_select_ids, lemma_select_next, pending_ids, skipped_ids};
use vstd::prelude::*;

verus! {

/// Where one identifier of the run stands.
#[derive(Clone, Copy, Debug, PartialEq, Eq, Structural)]
pub enum ItemState {
    /// Not handed out yet.
    Waiting,
    /// Handed out; its outcome is not definitive yet.
    InFlight,
    /// Ended in success.
    Succeeded,
    /// Ended in failure.
    Failed,
}

/// How a run is paced.
#[derive(Clone, Copy, Debug, PartialEq, Eq)]
pub struct RunSettings {
    /// Starts allowed per second.
    pub rate_limit: usize,
    /// Retries allowed for an identifier that fails transiently.
    pub retries: u8,
    /// The delay between the attempts for one identifier.
    pub backoff: BackoffPolicy,
    /// How many identifiers may be in flight at once. A pool has at least
    /// one worker: 0 counts as 1.
    pub workers: usize,
}

/// How many of `states` are `kind`.
pub open spec fn count(states: Seq<ItemState>, kind: ItemState) -> nat
    decreases states.len(),
{
    if states.len() == 0 {
        0
    } else {
        count(states.drop_last(), kind) + if states.last() == kind {
            1nat
        } else {
            0nat
        }
    }
}

/// Changing one state moves one unit from the count of its old kind to the
/// count of its new kind.
pub proof fn lemma_count_update(states: Seq<ItemState>, i: int, to: ItemState, kind: ItemState)
    requires
        0 <= i < states.len(),
    ensures
        count(states.update(i, to), kind) + (if states[i] == kind {
            1nat
        } else {
            0nat
        }) == count(states, kind) + (if to == kind {
            1nat
        } else {
            0nat
        }),
        count(states, kind) <= states.len(),
    decreases states.len(),
{
    let changed = states.update(i, to);
    if i == states.len() - 1 {
        assert(changed.drop_last() =~= states.drop_last());
        lemma_count_bound(states.drop_last(), kind);
    } else {
        assert(changed.drop_last() =~= states.drop_last().update(i, to));
        lemma_count_update(states.drop_last(), i, to, kind);
    }
}

/// No kind counts more than there are states, and a kind that occurs counts.
pub proof fn lemma_count_bound(states: Seq<ItemState>, kind: ItemState)
    ensures
        count(states, kind) <= states.len(),
        forall|i: int| 0 <= i < states.len() && #[trigger] states[i] == kind ==> count(states, kind) > 0,
        (forall|i: int| 0 <= i < states.len() ==> #[trigger] states[i] != kind) ==> count(
            states,
            kind,
        ) == 0,
    decreases states.len(),
{
    if states.len() > 0 {
        let front = states.drop_last();
        lemma_count_bound(front, kind);
        assert forall|i: int| 0 <= i < states.len() && #[trigger] states[i] == kind implies count(
            states,
            kind,
        ) > 0 by {
            if i < front.len() {
                assert(front[i] == kind);
            }
        }
        if forall|i: int| 0 <= i < states.len() ==> #[trigger] states[i] != kind {
            assert forall|i: int| 0 <= i < front.len() implies #[trigger] front[i] != kind by {
                assert(states[i] != kind);
            }
        }
    }
}

/// The four kinds count every state once.
pub proof fn lemma_count_total(states: Seq<ItemState>)
    ensures
        count(states, ItemState::Waiting) + count(states, ItemState::InFlight) + count(
            states,
            ItemState::Succeeded,
        ) + count(states, ItemState::Failed) == states.len(),
    decreases states.len(),
{
    if states.len() > 0 {
        lemma_count_total(states.drop_last());
    }
}

/// Mathematical value of a [`BatchRunner`].
pub struct RunnerView {
    /// The identifiers to work on, in the order in which they are handed out.
    pub identifiers: Seq<Seq<char>>,
    /// The value to apply to each of them.
    pub values: Seq<Seq<char>>,
    /// Where each of them stands.
    pub states: Seq<ItemState>,
    /// The retries spent on each of them.
    pub spent: Seq<u8>,
    /// How many of them were handed out.
    pub dispatched: nat,
    /// How many of them are in flight.
    pub in_flight: nat,
    /// How many may be in flight at once.
    pub workers: nat,
    /// Starts allowed per second.
    pub rate: nat,
    /// The first instant at which the rate limiter grants a start.
    pub next_free: u64,
    /// The retry allowance and the delay policy.
    pub retry: RetryController,
    /// The progress cache as it stands.
    pub cache: CacheView,
    /// The summary as it stands.
    pub summary: RunSummaryView,
    /// Whether the run was told to stop handing out.
    pub cancelled: bool,
    /// Whether the cache holds an entry that was not stored yet.
    pub unflushed: bool,
    /// The list of identifiers that the run was planned for.
    pub input: Seq<Seq<char>>,
    /// The progress cache that the run was planned with.
    pub origin: CacheView,
}

/// Whether two caches agree on `identifier`.
pub open spec fn same_entry(a: CacheView, b: CacheView, identifier: Seq<char>) -> bool {
    &&& a.contains_key(identifier) == b.contains_key(identifier)
    &&& a.contains_key(identifier) ==> a[identifier] == b[identifier]
}

/// Whether `failure` names an identifier of the run that ended in failure,
/// with the message that the cache records for it.
pub open spec fn failure_listed(v: RunnerView, failure: (Seq<char>, Seq<char>)) -> bool {
    exists|i: int|
        0 <= i < v.identifiers.len() && #[trigger] v.states[i] == ItemState::Failed
            && v.identifiers[i] == failure.0 && v.cache.contains_key(failure.0) && failure.1
            == detail_of(v.cache[failure.0].outcome)
}

/// Whether the summary lists the identifier at index `i`, with the message
/// that the cache records for it.
pub open spec fn failure_reported(v: RunnerView, i: int) -> bool {
    exists|j: int|
        0 <= j < v.summary.failures.len() && #[trigger] v.summary.failures[j] == (
            v.identifiers[i],
            detail_of(v.cache[v.identifiers[i]].outcome),
        )
}

/// What holds of a runner in every state.
pub open spec fn inv(v: RunnerView) -> bool {
    &&& v.values.len() == v.identifiers.len()
    &&& v.states.len() == v.identifiers.len()
    &&& v.spent.len() == v.identifiers.len()
    &&& v.identifiers == pending_ids(v.input, v.origin)
    &&& v.summary.skipped == skipped_ids(v.input, v.origin).len()
    &&& v.dispatched <= v.identifiers.len()
    &&& forall|i: int|
        0 <= i < v.states.len() ==> ((#[trigger] v.states[i] == ItemState::Waiting) <==> i
            >= v.dispatched)
    &&& v.workers >= 1
    &&& v.rate >= 1
    &&& v.in_flight == count(v.states, ItemState::InFlight)
    &&& v.in_flight <= v.workers
    &&& v.summary.succeeded == count(v.states, ItemState::Succeeded)
    &&& v.summary.failed == count(v.states, ItemState::Failed)
    &&& v.summary.failures.len() == v.summary.failed
    &&& forall|i: int| 0 <= i < v.spent.len() ==> #[trigger] v.spent[i] <= v.retry.max_retries
    &&& forall|i: int|
        0 <= i < v.states.len() ==> match #[trigger] v.states[i] {
            ItemState::Waiting | ItemState::InFlight => same_entry(
                v.cache,
                v.origin,
                v.identifiers[i],
            ),
            ItemState::Succeeded => is_success(v.cache, v.identifiers[i]),
            ItemState::Failed => v.cache.contains_key(v.identifiers[i])
                && v.cache[v.identifiers[i]].outcome is Failure,
        }
    &&& forall|k: Seq<char>| !(#[trigger] v.identifiers.contains(k)) ==> same_entry(v.cache, v.origin, k)
    &&& forall|j: int|
        0 <= j < v.summary.failures.len() ==> failure_listed(v, #[trigger] v.summary.failures[j])
    &&& forall|i: int|
        0 <= i < v.states.len() && #[trigger] v.states[i] == ItemState::Failed ==> failure_reported(
            v,
            i,
        )
}

/// Whether nothing is left to do: no identifier is in flight, and none will
/// be handed out.
pub open spec fn finished(v: RunnerView) -> bool {
    v.in_flight == 0 && (v.cancelled || v.dispatched >= v.identifiers.len())
}

/// What the runner answers when asked for the next start.
#[derive(Debug, PartialEq, Eq)]
pub enum Dispatch {
    /// Invoke the action for `identifier` with `value`, not before
    /// `start_at`; report the result under `ticket`.
    Start { ticket: usize, identifier: String, value: String, start_at: u64 },
    /// Every worker is taken: ask again after a result was reported.
    Busy,
    /// Nothing is left to hand out.
    Drained,
}

/// Mathematical value of a [`Dispatch`].
pub enum DispatchView {
    Start { ticket: nat, identifier: Seq<char>, value: Seq<char>, start_at: u64 },
    Busy,
    Drained,
}

impl View for Dispatch {
    type V = DispatchView;

    open spec fn view(&self) -> DispatchView {
        match self {
            Dispatch::Start { ticket, identifier, value, start_at } => DispatchView::Start {
                ticket: *ticket as nat,
                identifier: identifier@,
                value: value@,
                start_at: *start_at,
            },
            Dispatch::Busy => DispatchView::Busy,
            Dispatch::Drained => DispatchView::Drained,
        }
    }
}

/// What the runner answers to a reported result.
#[derive(Debug, PartialEq, Eq)]
pub enum Completion {
    /// Invoke the action again for the same identifier after `delay_ms`
    /// milliseconds, under the same ticket.
    Retry { delay_ms: u64 },
    /// The outcome is definitive and is now in the cache: store the cache.
    Recorded(CacheEntry),
    /// The ticket names no identifier in flight; nothing changed.
    Ignored,
}

/// Mathematical value of a [`Completion`].
pub enum CompletionView {
    Retry { delay_ms: nat },
    Recorded(CacheEntryView),
    Ignored,
}

impl View for Completion {
    type V = CompletionView;

    open spec fn view(&self) -> CompletionView {
        match self {
            Completion::Retry { delay_ms } => CompletionView::Retry { delay_ms: *delay_ms as nat },
            Completion::Recorded(entry) => CompletionView::Recorded(entry@),
            Completion::Ignored => CompletionView::Ignored,
        }
    }
}

/// The runner's answer to a request for the next start made at `now`, and
/// the state it is in afterwards. After a cancellation, or when every
/// identifier was handed out, nothing is left; with every worker taken the
/// request has to wait; else the next identifier in order is handed out, and
/// the rate limiter says from when it may start.
pub open spec fn dispatch_spec(v: RunnerView, now: u64) -> (RunnerView, DispatchView) {
    if v.cancelled || v.dispatched >= v.identifiers.len() {
        (v, DispatchView::Drained)
    } else if v.in_flight >= v.workers {
        (v, DispatchView::Busy)
    } else {
        let ticket = v.dispatched;
        let grant = grant_spec(v.next_free, now);
        (
            RunnerView {
                states: v.states.update(ticket as int, ItemState::InFlight),
                dispatched: ticket + 1,
                in_flight: v.in_flight + 1,
                next_free: next_free_spec(v.rate, grant),
                ..v
            },
            DispatchView::Start {
                ticket,
                identifier: v.identifiers[ticket as int],
                value: v.values[ticket as int],
                start_at: grant,
            },
        )
    }
}

/// The summary after `entry` was recorded for `identifier`.
pub open spec fn tally(
    summary: RunSummaryView,
    identifier: Seq<char>,
    entry: CacheEntryView,
) -> RunSummaryView {
    if entry.outcome is Success {
        RunSummaryView { succeeded: summary.succeeded + 1, ..summary }
    } else {
        RunSummaryView {
            failed: summary.failed + 1,
            failures: summary.failures.push((identifier, detail_of(entry.outcome))),
            ..summary
        }
    }
}

/// The runner's answer to the result reported under `ticket`, and the state
/// it is in afterwards. A ticket that names no identifier in flight changes
/// nothing. Else the retry controller decides: on a retry the identifier
/// stays in flight with one more retry spent; on a definitive outcome the
/// entry goes into the cache and the summary, and the worker is free again.
pub open spec fn complete_spec(v: RunnerView, ticket: nat, result: ActionResultView) -> (
    RunnerView,
    CompletionView,
) {
    if ticket >= v.states.len() || v.states[ticket as int] != ItemState::InFlight {
        (v, CompletionView::Ignored)
    } else {
        match decide_spec(
            v.retry.max_retries as nat,
            v.retry.backoff,
            v.spent[ticket as int] as nat,
            result,
        ) {
            RetryDecisionView::Retry { retries_used, delay_ms } => (
                RunnerView { spent: v.spent.update(ticket as int, retries_used as u8), ..v },
                CompletionView::Retry { delay_ms },
            ),
            RetryDecisionView::Finish(entry) => (
                RunnerView {
                    states: v.states.update(
                        ticket as int,
                        if entry.outcome is Success {
                            ItemState::Succeeded
                        } else {
                            ItemState::Failed
                        },
                    ),
                    in_flight: (v.in_flight - 1) as nat,
                    cache: v.cache.insert(v.identifiers[ticket as int], entry),
                    summary: tally(v.summary, v.identifiers[ticket as int], entry),
                    unflushed: true,
                    ..v
                },
                CompletionView::Recorded(entry),
            ),
        }
    }
}

/// Handing out keeps the invariant.
pub proof fn lemma_dispatch_keeps_inv(v: RunnerView, now: u64)
    requires
        inv(v),
    ensures
        inv(dispatch_spec(v, now).0),
{
    let w = dispatch_spec(v, now).0;
    if w != v {
        let t = v.dispatched as int;
        assert(v.states[t] == ItemState::Waiting);
        lemma_count_update(v.states, t, ItemState::InFlight, ItemState::InFlight);
        lemma_count_update(v.states, t, ItemState::InFlight, ItemState::Succeeded);
        lemma_count_update(v.states, t, ItemState::InFlight, ItemState::Failed);
        assert forall|j: int| 0 <= j < w.summary.failures.len() implies failure_listed(
            w,
            #[trigger] w.summary.failures[j],
        ) by {
            let f = v.summary.failures[j];
            assert(failure_listed(v, f));
            let i = choose|i: int|
                0 <= i < v.identifiers.len() && #[trigger] v.states[i] == ItemState::Failed
                    && v.identifiers[i] == f.0 && v.cache.contains_key(f.0) && f.1 == detail_of(
                    v.cache[f.0].outcome,
                );
            assert(w.states[i] == ItemState::Failed);
        }
    }
}

/// Reporting a result keeps the invariant.
pub proof fn lemma_complete_keeps_inv(v: RunnerView, ticket: nat, result: ActionResultView)
    requires
        inv(v),
    ensures
        inv(complete_spec(v, ticket, result).0),
{
    let w = complete_spec(v, ticket, result).0;
    if ticket < v.states.len() && v.states[ticket as int] == ItemState::InFlight {
        let t = ticket as int;
        let id = v.identifiers[t];
        lemma_select_ids(v.input, v.origin, false);
        assert(v.spent[t] <= v.retry.max_retries);
        match decide_spec(v.retry.max_retries as nat, v.retry.backoff, v.spent[t] as nat, result) {
            RetryDecisionView::Retry { retries_used, delay_ms } => {
                assert forall|j: int| 0 <= j < w.summary.failures.len() implies failure_listed(
                    w,
                    #[trigger] w.summary.failures[j],
                ) by {
                    let f = v.summary.failures[j];
                    assert(failure_listed(v, f));
                }
                assert forall|i: int|
                    0 <= i < w.states.len() && #[trigger] w.states[i]
                        == ItemState::Failed implies failure_reported(w, i) by {
                    assert(failure_reported(v, i));
                }
            },
            RetryDecisionView::Finish(entry) => {
                let to = if entry.outcome is Success {
                    ItemState::Succeeded
                } else {
                    ItemState::Failed
                };
                lemma_count_update(v.states, t, to, ItemState::InFlight);
                lemma_count_update(v.states, t, to, ItemState::Succeeded);
                lemma_count_update(v.states, t, to, ItemState::Failed);
                lemma_count_bound(v.states, ItemState::InFlight);
                assert(v.in_flight > 0);
                assert forall|i: int| 0 <= i < w.states.len() implies match #[trigger] w.states[i] {
                    ItemState::Waiting | ItemState::InFlight => same_entry(
                        w.cache,
                        w.origin,
                        w.identifiers[i],
                    ),
                    ItemState::Succeeded => is_success(w.cache, w.identifiers[i]),
                    ItemState::Failed => w.cache.contains_key(w.identifiers[i])
                        && w.cache[w.identifiers[i]].outcome is Failure,
                } by {
                    if i != t {
                        assert(v.identifiers[i] != id);
                        assert(w.states[i] == v.states[i]);
                    }
                }
                assert forall|k: Seq<char>| !(#[trigger] w.identifiers.contains(k)) implies same_entry(
                    w.cache,
                    w.origin,
                    k,
                ) by {
                    assert(v.identifiers[t] == id);
                    assert(k != id);
                }
                assert forall|j: int| 0 <= j < w.summary.failures.len() implies failure_listed(
                    w,
                    #[trigger] w.summary.failures[j],
                ) by {
                    let f = w.summary.failures[j];
                    if j < v.summary.failures.len() {
                        assert(f == v.summary.failures[j]);
                        assert(failure_listed(v, f));
                        let i = choose|i: int|
                            0 <= i < v.identifiers.len() && #[trigger] v.states[i]
                                == ItemState::Failed && v.identifiers[i] == f.0
                                && v.cache.contains_key(f.0) && f.1 == detail_of(
                                v.cache[f.0].outcome,
                            );
                        assert(i != t);
                        assert(v.identifiers[i] != id);
                        assert(w.states[i] == ItemState::Failed);
                    } else {
                        assert(w.states[t] == ItemState::Failed);
                    }
                }
                assert forall|i: int|
                    0 <= i < w.states.len() && #[trigger] w.states[i]
                        == ItemState::Failed implies failure_reported(w, i) by {
                    if i == t {
                        let last = v.summary.failures.len() as int;
                        assert(w.summary.failures[last] == (id, detail_of(entry.outcome)));
                    } else {
                        assert(v.states[i] == ItemState::Failed);
                        assert(failure_reported(v, i));
                        assert(v.identifiers[i] != id);
                        let j = choose|j: int|
                            0 <= j < v.summary.failures.len() && #[trigger] v.summary.failures[j]
                                == (v.identifiers[i], detail_of(v.cache[v.identifiers[i]].outcome));
                        assert(w.summary.failures[j] == v.summary.failures[j]);
                    }
                }
            },
        }
    }
}

/// The identifiers that ended in success in this run.
pub open spec fn succeeded_in(v: RunnerView) -> Set<Seq<char>> {
    Set::new(
        |id: Seq<char>|
            exists|i: int|
                0 <= i < v.identifiers.len() && #[trigger] v.states[i] == ItemState::Succeeded
                    && v.identifiers[i] == id,
    )
}

/// In every state, the cache records a success for an identifier of the run
/// exactly if the identifier ended in success in this run, and for any other
/// identifier exactly if it did when the run was planned.
pub proof fn lemma_success_set(v: RunnerView)
    requires
        inv(v),
    ensures
        forall|i: int|
            0 <= i < v.identifiers.len() ==> (is_success(v.cache, #[trigger] v.identifiers[i])
                <==> v.states[i] == ItemState::Succeeded),
        forall|i: int|
            0 <= i < v.identifiers.len() ==> !is_success(v.origin, #[trigger] v.identifiers[i]),
        crate::cache::success_set(v.cache) == crate::cache::success_set(v.origin).union(
            succeeded_in(v),
        ),
{
    lemma_select_ids(v.input, v.origin, false);
    assert forall|i: int| 0 <= i < v.identifiers.len() implies !is_success(
        v.origin,
        #[trigger] v.identifiers[i],
    ) by {
        assert(v.identifiers.contains(v.identifiers[i]));
    }
    assert forall|i: int| 0 <= i < v.identifiers.len() implies (is_success(
        v.cache,
        #[trigger] v.identifiers[i],
    ) <==> v.states[i] == ItemState::Succeeded) by {
        let s = v.states[i];
        assert(v.identifiers.contains(v.identifiers[i]));
    }
    assert forall|id: Seq<char>|
        crate::cache::success_set(v.cache).contains(id) <==> crate::cache::success_set(
            v.origin,
        ).union(succeeded_in(v)).contains(id) by {
        if v.identifiers.contains(id) {
            let i = v.identifiers.index_of(id);
            assert(v.identifiers[i] == id);
            let s = v.states[i];
            if is_success(v.cache, id) {
                assert(v.states[i] == ItemState::Succeeded);
            }
            if succeeded_in(v).contains(id) {
                let k = choose|k: int|
                    0 <= k < v.identifiers.len() && #[trigger] v.states[k] == ItemState::Succeeded
                        && v.identifiers[k] == id;
                assert(is_success(v.cache, v.identifiers[k]));
            }
        } else {
            assert(same_entry(v.cache, v.origin, id));
            if succeeded_in(v).contains(id) {
                let k = choose|k: int|
                    0 <= k < v.identifiers.len() && #[trigger] v.states[k] == ItemState::Succeeded
                        && v.identifiers[k] == id;
                assert(v.identifiers.contains(id));
            }
        }
    }
    assert(crate::cache::success_set(v.cache) =~= crate::cache::success_set(v.origin).union(
        succeeded_in(v),
    ));
}

/// Idempotence. An identifier for which the cache recorded a success when
/// the run was planned is none of the run's identifiers, so no request for a
/// start is answered with it; and the cache goes on recording its success.
pub proof fn lemma_recorded_success_is_never_started(v: RunnerView, id: Seq<char>, now: u64)
    requires
        inv(v),
        is_success(v.origin, id),
    ensures
        !v.identifiers.contains(id),
        is_success(v.cache, id),
        dispatch_spec(v, now).1 matches DispatchView::Start { identifier, .. } ==> identifier
            != id,
{
    lemma_select_ids(v.input, v.origin, false);
    assert(!pending_ids(v.input, v.origin).contains(id));
    assert(!v.identifiers.contains(id));
    assert(same_entry(v.cache, v.origin, id));
    if dispatch_spec(v, now).1 is Start {
        assert(v.identifiers.contains(v.identifiers[v.dispatched as int]));
    }
}

/// An identifier is handed out once. What a request for a start is answered
/// with was waiting and has no recorded success; an identifier that ended,
/// in success or in failure, is not started again: a result reported for it
/// changes nothing.
pub proof fn lemma_started_once(v: RunnerView, now: u64, ticket: nat, result: ActionResultView)
    requires
        inv(v),
    ensures
        dispatch_spec(v, now).1 matches DispatchView::Start { ticket: t, identifier, .. } ==> {
            &&& t < v.states.len()
            &&& v.states[t as int] == ItemState::Waiting
            &&& identifier == v.identifiers[t as int]
            &&& !is_success(v.cache, identifier)
            &&& !is_success(v.origin, identifier)
        },
        ticket < v.states.len() && (v.states[ticket as int] == ItemState::Succeeded
            || v.states[ticket as int] == ItemState::Failed) ==> complete_spec(v, ticket, result)
            == (v, CompletionView::Ignored),
{
    lemma_success_set(v);
    if dispatch_spec(v, now).1 is Start {
        let t = v.dispatched as int;
        assert(v.states[t] == ItemState::Waiting);
    }
}

/// Resumability. Let a run be left in any state, and let a second run be
/// planned for the same list with the cache that the first one left. The
/// second run works on exactly the identifiers that the first did not bring
/// to success, and the successes that its cache records are those recorded
/// before the first run, those of the first run and its own.
pub proof fn lemma_resumed_run(first: RunnerView, second: RunnerView)
    requires
        inv(first),
        inv(second),
        second.input == first.input,
        second.origin == first.cache,
    ensures
        forall|id: Seq<char>| #[trigger]
            second.identifiers.contains(id) <==> first.identifiers.contains(id) && !is_success(
                first.cache,
                id,
            ),
        forall|i: int|
            0 <= i < first.identifiers.len() ==> (second.identifiers.contains(
                #[trigger] first.identifiers[i],
            ) <==> first.states[i] != ItemState::Succeeded),
        crate::cache::success_set(second.cache) == crate::cache::success_set(first.origin).union(
            succeeded_in(first),
        ).union(succeeded_in(second)),
{
    lemma_success_set(first);
    lemma_success_set(second);
    lemma_select_ids(first.input, first.origin, false);
    lemma_select_ids(first.input, first.cache, false);
    assert forall|id: Seq<char>| #[trigger]
        second.identifiers.contains(id) <==> first.identifiers.contains(id) && !is_success(
            first.cache,
            id,
        ) by {
        if is_success(first.origin, id) {
            assert(crate::cache::success_set(first.origin).contains(id));
            assert(crate::cache::success_set(first.cache).contains(id));
        }
    }
    assert forall|i: int| 0 <= i < first.identifiers.len() implies (second.identifiers.contains(
        #[trigger] first.identifiers[i],
    ) <==> first.states[i] != ItemState::Succeeded) by {
        assert(first.identifiers.contains(first.identifiers[i]));
    }
}

/// A run that was not cancelled ends with every one of its identifiers in
/// success or in failure: the counts of the summary add up to the number of
/// distinct identifiers of the list, and none is lost.
pub proof fn lemma_finished_run_accounts_for_all(v: RunnerView)
    requires
        inv(v),
        finished(v),
        !v.cancelled,
    ensures
        v.summary.succeeded + v.summary.failed == v.identifiers.len(),
        v.summary.succeeded + v.summary.failed + v.summary.skipped == v.input.to_set().len(),
        forall|i: int|
            0 <= i < v.states.len() ==> #[trigger] v.states[i] == ItemState::Succeeded
                || v.states[i] == ItemState::Failed,
{
    lemma_count_total(v.states);
    lemma_count_bound(v.states, ItemState::Waiting);
    lemma_count_bound(v.states, ItemState::InFlight);
    crate::worklist::lemma_partition(v.input, v.origin);
}

/// In every state the counts of the summary and the identifiers in flight or
/// waiting add up to the identifiers of the run.
pub proof fn lemma_counts_add_up(v: RunnerView)
    requires
        inv(v),
    ensures
        v.summary.succeeded + v.summary.failed + v.in_flight + count(v.states, ItemState::Waiting)
            == v.identifiers.len(),
        count(v.states, ItemState::Waiting) == v.identifiers.len() - v.dispatched,
{
    lemma_count_total(v.states);
    lemma_waiting_count(v.states, v.dispatched as int);
}

proof fn lemma_waiting_count(states: Seq<ItemState>, dispatched: int)
    requires
        0 <= dispatched <= states.len(),
        forall|i: int|
            0 <= i < states.len() ==> ((#[trigger] states[i] == ItemState::Waiting) <==> i
                >= dispatched),
    ensures
        count(states, ItemState::Waiting) == states.len() - dispatched,
    decreases states.len(),
{
    if states.len() > 0 {
        let front = states.drop_last();
        if dispatched == states.len() {
            lemma_count_bound(states, ItemState::Waiting);
        } else {
            assert forall|i: int| 0 <= i < front.len() implies ((#[trigger] front[i]
                == ItemState::Waiting) <==> i >= dispatched) by {
                assert(front[i] == states[i]);
            }
            lemma_waiting_count(front, dispatched);
            assert(states[states.len() - 1] == ItemState::Waiting);
        }
    }
}

/// Every definitive outcome asks for the cache to be stored: once an entry
/// was recorded, the runner holds an entry that was not stored yet.
pub proof fn lemma_recorded_needs_flush(v: RunnerView, ticket: nat, result: ActionResultView)
    ensures
        complete_spec(v, ticket, result).1 is Recorded ==> complete_spec(
            v,
            ticket,
            result,
        ).0.unflushed,
{
}

/// No starvation. While a run is not finished, an identifier is in flight,
/// or the next request for a start is answered with one.
pub proof fn lemma_progress(v: RunnerView, now: u64)
    requires
        inv(v),
        !finished(v),
    ensures
        v.in_flight > 0 || dispatch_spec(v, now).1 is Start,
{
}

/// No failure is lost. Every identifier that ended in failure stands in the
/// summary with the message that the cache records for it, and the summary
/// lists nothing else.
pub proof fn lemma_failures_are_reported(v: RunnerView)
    requires
        inv(v),
    ensures
        forall|i: int|
            0 <= i < v.states.len() && #[trigger] v.states[i] == ItemState::Failed
                ==> failure_reported(v, i),
        forall|j: int|
            0 <= j < v.summary.failures.len() ==> failure_listed(v, #[trigger] v.summary.failures[j]),
        v.summary.failures.len() == count(v.states, ItemState::Failed),
{
}

/// The state in which a run starts: the pending identifiers of `ids` wait,
/// each with its value from `payload`; nothing is in flight, the rate limiter
/// is free, the cache is `origin`, and the summary counts the identifiers
/// that are left out.
pub open spec fn planned(
    ids: Seq<Seq<char>>,
    payload: crate::value::NewValueView,
    settings: RunSettings,
    origin: CacheView,
) -> RunnerView {
    let pending = pending_ids(ids, origin);
    RunnerView {
        identifiers: pending,
        values: Seq::new(pending.len(), |i: int| value_of(payload, pending[i])->Some_0),
        states: Seq::new(pending.len(), |i: int| ItemState::Waiting),
        spent: Seq::new(pending.len(), |i: int| 0u8),
        dispatched: 0,
        in_flight: 0,
        workers: if settings.workers == 0 {
            1
        } else {
            settings.workers as nat
        },
        rate: settings.rate_limit as nat,
        next_free: 0,
        retry: RetryController { max_retries: settings.retries, backoff: settings.backoff },
        cache: origin,
        summary: RunSummaryView {
            succeeded: 0,
            failed: 0,
            skipped: skipped_ids(ids, origin).len(),
            failures: Seq::empty(),
        },
        cancelled: false,
        unflushed: false,
        input: ids,
        origin,
    }
}

/// A run starts in a state that meets the invariant.
pub proof fn lemma_planned_inv(
    ids: Seq<Seq<char>>,
    payload: crate::value::NewValueView,
    settings: RunSettings,
    origin: CacheView,
)
    requires
        settings.rate_limit > 0,
    ensures
        inv(planned(ids, payload, settings, origin)),
{
    let v = planned(ids, payload, settings, origin);
    lemma_count_bound(v.states, ItemState::InFlight);
    lemma_count_bound(v.states, ItemState::Succeeded);
    lemma_count_bound(v.states, ItemState::Failed);
}

/// The engine of one run.
pub struct BatchRunner {
    items: StringMap<String>,
    states: Vec<ItemState>,
    spent: Vec<u8>,
    next: usize,
    in_flight: usize,
    workers: usize,
    limiter: RateLimiter,
    retry: RetryController,
    cache: ProgressCache,
    summary: RunSummary,
    cancelled: bool,
    unflushed: bool,
    input: Ghost<Seq<Seq<char>>>,
    origin: Ghost<CacheView>,
}

impl View for BatchRunner {
    type V = RunnerView;

    closed spec fn view(&self) -> RunnerView {
        RunnerView {
            identifiers: self.items.key_seq(),
            values: Seq::new(
                self.items.value_seq().len(),
                |i: int| self.items.value_seq()[i]@,
            ),
            states: self.states@,
            spent: self.spent@,
            dispatched: self.next as nat,
            in_flight: self.in_flight as nat,
            workers: self.workers as nat,
            rate: self.limiter.rate(),
            next_free: self.limiter.next_free(),
            retry: self.retry,
            cache: self.cache@,
            summary: self.summary@,
            cancelled: self.cancelled,
            unflushed: self.unflushed,
            input: self.input@,
            origin: self.origin@,
        }
    }
}

impl BatchRunner {
    /// The parts are well formed and the state meets the invariant.
    pub closed spec fn wf(&self) -> bool {
        &&& self.items.wf()
        &&& self.cache.wf()
        &&& self.limiter.wf()
        &&& inv(self@)
    }

    /// A well-formed runner meets the invariant.
    pub proof fn lemma_wf(&self)
        requires
            self.wf(),
        ensures
            inv(self@),
    {
    }

    /// Plans a run over `identifiers` with the progress recorded in `cache`.
    ///
    /// Fails with `EmptyIdentifierList` on an empty list, and with
    /// `IncompleteValueMap` when `new_value` lacks a value for one of the
    /// identifiers. Else the run covers, in list order and each once, the
    /// identifiers for which `cache` records no success.
    pub fn plan(
        identifiers: &Vec<String>,
        new_value: &NewValue,
        settings: RunSettings,
        cache: ProgressCache,
    ) -> (planned_run: Result<BatchRunner, RunError>)
        requires
            settings.rate_limit > 0,
            new_value.wf(),
            cache.wf(),
        ensures
            match planned_run {
                Ok(runner) => {
                    &&& identifiers.len() > 0
                    &&& covers(new_value@, texts(identifiers@))
                    &&& runner.wf()
                    &&& runner@ == planned(texts(identifiers@), new_value@, settings, cache@)
                },
                Err(e) => if identifiers.len() == 0 {
                    e == RunError::EmptyIdentifierList
                } else {
                    e == RunError::IncompleteValueMap && !covers(new_value@, texts(identifiers@))
                },
            },
    {
        if identifiers.len() == 0 {
            return Err(RunError::EmptyIdentifierList);
        }
        if new_value.first_missing(identifiers).is_some() {
            return Err(RunError::IncompleteValueMap);
        }
        let ghost ids = texts(identifiers@);
        let mut items: StringMap<String> = StringMap::new();
        let mut skipped: StringMap<bool> = StringMap::new();
        let mut i: usize = 0;
        while i < identifiers.len()
            invariant
                i <= identifiers.len(),
                ids == texts(identifiers@),
                cache.wf(),
                new_value.wf(),
                items.wf(),
                skipped.wf(),
                covers(new_value@, ids),
                items.key_seq() == pending_ids(ids.take(i as int), cache@),
                skipped.key_seq() == skipped_ids(ids.take(i as int), cache@),
                forall|k: Seq<char>| #[trigger]
                    items@.contains_key(k) ==> value_of(new_value@, k) == Some(items@[k]@),
            decreases identifiers.len() - i,
        {
            let identifier = &identifiers[i];
            proof {
                lemma_select_next(ids, cache@, false, i as int);
                lemma_select_next(ids, cache@, true, i as int);
                assert(ids[i as int] == identifier@);
            }
            if cache.succeeded(identifier) {
                if !skipped.contains_key(identifier) {
                    skipped.insert(identifier.clone(), true);
                }
            } else {
                if !items.contains_key(identifier) {
                    // every identifier has a value: the payload covers the list
                    match new_value.value_for(identifier) {
                        Some(value) => {
                            items.insert(identifier.clone(), value.clone());
                        },
                        None => {},
                    }
                }
            }
            i = i + 1;
        }
        assert(ids.take(identifiers.len() as int) =~= ids);
        let count: usize = items.len();
        let mut states: Vec<ItemState> = Vec::new();
        let mut spent: Vec<u8> = Vec::new();
        let mut j: usize = 0;
        while j < count
            invariant
                j <= count,
                states@ =~= Seq::new(j as nat, |i: int| ItemState::Waiting),
                spent@ =~= Seq::new(j as nat, |i: int| 0u8),
            decreases count - j,
        {
            states.push(ItemState::Waiting);
            spent.push(0);
            j = j + 1;
        }
        let skipped_count = skipped.len();
        let workers = if settings.workers == 0 {
            1
        } else {
            settings.workers
        };
        let runner = BatchRunner {
            items,
            states,
            spent,
            next: 0,
            in_flight: 0,
            workers,
            limiter: RateLimiter::new(settings.rate_limit),
            retry: RetryController::new(settings.retries, settings.backoff),
            cache,
            summary: RunSummary {
                succeeded: 0,
                failed: 0,
                skipped: skipped_count,
                failures: Vec::new(),
            },
            cancelled: false,
            unflushed: false,
            input: Ghost(ids),
            origin: Ghost(cache@),
        };
        proof {
            let target = planned(ids, new_value@, settings, cache@);
            runner.items.lemma_domain();
            assert(runner@.values =~= target.values);
            assert(runner@.summary.failures =~= target.summary.failures);
            assert(runner@.states =~= target.states);
            assert(runner@.spent =~= target.spent);
            assert(runner@.summary == target.summary);
            assert(runner@.retry == target.retry);
            assert(runner@ == target);
            lemma_planned_inv(ids, new_value@, settings, cache@);
        }
        Ok(runner)
    }

    /// Answers a request for the next start, made at `now`.
    pub fn dispatch(&mut self, now: u64) -> (d: Dispatch)
        requires
            old(self).wf(),
        ensures
            final(self).wf(),
            final(self)@ == dispatch_spec(old(self)@, now).0,
            d@ == dispatch_spec(old(self)@, now).1,
            d@ matches DispatchView::Start { identifier, .. } ==> !is_success(
                final(self)@.cache,
                identifier,
            ),
    {
        if self.cancelled || self.next >= self.states.len() {
            return Dispatch::Drained;
        }
        if self.in_flight >= self.workers {
            return Dispatch::Busy;
        }
        let ticket = self.next;
        proof {
            lemma_dispatch_keeps_inv(self@, now);
            lemma_select_ids(self@.input, self@.origin, false);
            assert(self@.states[ticket as int] == ItemState::Waiting);
            assert(self@.identifiers.contains(self@.identifiers[ticket as int]));
        }
        let start_at = self.limiter.acquire(now);
        self.states.set(ticket, ItemState::InFlight);
        self.next = ticket + 1;
        self.in_flight = self.in_flight + 1;
        let identifier = self.items.key_at(ticket).clone();
        let value = self.items.value_at(ticket).clone();
        proof {
            assert(self@ == dispatch_spec(old(self)@, now).0);
        }
        Dispatch::Start { ticket, identifier, value, start_at }
    }

    /// Takes the result that the action handed back for `ticket`.
    pub fn complete(&mut self, ticket: usize, result: ActionResult) -> (c: Completion)
        requires
            old(self).wf(),
        ensures
            final(self).wf(),
            final(self)@ == complete_spec(old(self)@, ticket as nat, result_view(result)).0,
            c@ == complete_spec(old(self)@, ticket as nat, result_view(result)).1,
    {
        if ticket >= self.states.len() {
            return Completion::Ignored;
        }
        if self.states[ticket] != ItemState::InFlight {
            return Completion::Ignored;
        }
        proof {
            lemma_complete_keeps_inv(self@, ticket as nat, result_view(result));
            lemma_count_bound(self@.states, ItemState::InFlight);
        }
        match self.retry.decide(self.spent[ticket], result) {
            RetryDecision::Retry { retries_used, delay_ms } => {
                self.spent.set(ticket, retries_used);
                proof {
                    assert(self@ == complete_spec(
                        old(self)@,
                        ticket as nat,
                        result_view(result),
                    ).0);
                }
                Completion::Retry { delay_ms }
            },
            RetryDecision::Finish(entry) => {
                let identifier = self.items.key_at(ticket).clone();
                if entry.is_success() {
                    proof {
                        lemma_count_update(
                            self@.states,
                            ticket as int,
                            ItemState::Succeeded,
                            ItemState::Succeeded,
                        );
                        lemma_count_bound(
                            self@.states.update(ticket as int, ItemState::Succeeded),
                            ItemState::Succeeded,
                        );
                    }
                    self.states.set(ticket, ItemState::Succeeded);
                    self.summary.succeeded = self.summary.succeeded + 1;
                } else {
                    proof {
                        lemma_count_update(
                            self@.states,
                            ticket as int,
                            ItemState::Failed,
                            ItemState::Failed,
                        );
                        lemma_count_bound(
                            self@.states.update(ticket as int, ItemState::Failed),
                            ItemState::Failed,
                        );
                    }
                    self.states.set(ticket, ItemState::Failed);
                    self.summary.failed = self.summary.failed + 1;
                    let reason = entry.outcome.detail().clone();
                    self.summary.failures.push(
                        FailedItem { identifier: identifier.clone(), reason },
                    );
                }
                self.in_flight = self.in_flight - 1;
                self.cache.record(identifier, entry.clone());
                self.unflushed = true;
                proof {
                    let target = complete_spec(old(self)@, ticket as nat, result_view(result)).0;
                    assert(self@.summary.failures =~= target.summary.failures);
                    assert(self@.summary == target.summary);
                    assert(self@ == target);
                }
                Completion::Recorded(entry)
            },
        }
    }

    /// Stops the run: nothing more is handed out. What is in flight ends as
    /// it would have.
    pub fn cancel(&mut self)
        requires
            old(self).wf(),
        ensures
            final(self).wf(),
            final(self)@ == (RunnerView { cancelled: true, ..old(self)@ }),
    {
        self.cancelled = true;
        proof {
            let v = old(self)@;
            let w = self@;
            assert forall|j: int| 0 <= j < w.summary.failures.len() implies failure_listed(
                w,
                #[trigger] w.summary.failures[j],
            ) by {
                assert(failure_listed(v, v.summary.failures[j]));
            }
        }
    }

    /// Whether nothing is left to do.
    pub fn is_finished(&self) -> (b: bool)
        requires
            self.wf(),
        ensures
            b == finished(self@),
    {
        self.in_flight == 0 && (self.cancelled || self.next >= self.states.len())
    }

    /// Whether the cache holds an entry that was not stored yet.
    pub fn needs_flush(&self) -> (b: bool)
        ensures
            b == self@.unflushed,
    {
        self.unflushed
    }

    /// Notes that the cache, as it stands, was stored.
    pub fn mark_flushed(&mut self)
        requires
            old(self).wf(),
        ensures
            final(self).wf(),
            final(self)@ == (RunnerView { unflushed: false, ..old(self)@ }),
    {
        self.unflushed = false;
        proof {
            let v = old(self)@;
            let w = self@;
            assert forall|j: int| 0 <= j < w.summary.failures.len() implies failure_listed(
                w,
                #[trigger] w.summary.failures[j],
            ) by {
                assert(failure_listed(v, v.summary.failures[j]));
            }
        }
    }

    /// The progress cache as it stands.
    pub fn cache(&self) -> (cache: &ProgressCache)
        requires
            self.wf(),
        ensures
            cache.wf(),
            cache@ == self@.cache,
    {
        &self.cache
    }

    /// The summary as it stands.
    pub fn summary(&self) -> (summary: &RunSummary)
        ensures
            summary@ == self@.summary,
    {
        &self.summary
    }

    /// Ends the run and hands out its summary and the progress cache.
    pub fn finish(self) -> (parts: (RunSummary, ProgressCache))
        requires
            self.wf(),
        ensures
            parts.0@ == self@.summary,
            parts.1.wf(),
            parts.1@ == self@.cache,
    {
        (self.summary, self.cache)
    }
}

} // verus!
