//! Whole runs: what holds of a runner after any series of requests and
//! reports.

use crate::cache::is_success;
use crate::limiter::{
    interval_for, lemma_rate_bound, schedule, within_clock, NANOS_PER_SECOND,
};
use crate::outcome::ActionResultView;
use crate::runner::{
    complete_spec, dispatch_spec, inv, lemma_complete_keeps_inv, lemma_dispatch_keeps_inv,
    lemma_success_set, same_entry, DispatchView, ItemState, RunnerView,
};
use vstd::prelude::*;

verus! {

/// What a driver does to a runner.
pub enum Event {
    /// It asks, at the given instant, for the next start.
    Ask(u64),
    /// It reports a result under a ticket.
    Report(nat, ActionResultView),
}

/// The state of a runner after one event.
pub open spec fn after(v: RunnerView, event: Event) -> RunnerView {
    match event {
        Event::Ask(now) => dispatch_spec(v, now).0,
        Event::Report(ticket, result) => complete_spec(v, ticket, result).0,
    }
}

/// The state of a runner after a series of events.
pub open spec fn after_all(v: RunnerView, events: Seq<Event>) -> RunnerView
    decreases events.len(),
{
    if events.len() == 0 {
        v
    } else {
        after_all(after(v, events[0]), events.drop_first())
    }
}

/// The start that an event is answered with, if it is answered with one:
/// the instant of the request, the identifier and the granted instant.
pub open spec fn start_of(v: RunnerView, event: Event) -> Option<(u64, Seq<char>, u64)> {
    match event {
        Event::Ask(now) => match dispatch_spec(v, now).1 {
            DispatchView::Start { identifier, start_at, .. } => Some((now, identifier, start_at)),
            _ => None,
        },
        Event::Report(_, _) => None,
    }
}

/// The starts that a series of events is answered with, in order.
pub open spec fn starts_of(v: RunnerView, events: Seq<Event>) -> Seq<(u64, Seq<char>, u64)>
    decreases events.len(),
{
    if events.len() == 0 {
        Seq::empty()
    } else {
        let rest = starts_of(after(v, events[0]), events.drop_first());
        match start_of(v, events[0]) {
            Some(start) => seq![start] + rest,
            None => rest,
        }
    }
}

/// The instants of the requests that were answered with a start.
pub open spec fn asked_at(starts: Seq<(u64, Seq<char>, u64)>) -> Seq<u64> {
    Seq::new(starts.len(), |i: int| starts[i].0)
}

/// The identifiers that were started.
pub open spec fn started_ids(starts: Seq<(u64, Seq<char>, u64)>) -> Seq<Seq<char>> {
    Seq::new(starts.len(), |i: int| starts[i].1)
}

/// The instants that were granted.
pub open spec fn granted_at(starts: Seq<(u64, Seq<char>, u64)>) -> Seq<u64> {
    Seq::new(starts.len(), |i: int| starts[i].2)
}

/// The invariant holds after any series of events.
pub proof fn lemma_events_keep_inv(v: RunnerView, events: Seq<Event>)
    requires
        inv(v),
    ensures
        inv(after_all(v, events)),
    decreases events.len(),
{
    if events.len() > 0 {
        match events[0] {
            Event::Ask(now) => lemma_dispatch_keeps_inv(v, now),
            Event::Report(ticket, result) => lemma_complete_keeps_inv(v, ticket, result),
        }
        lemma_events_keep_inv(after(v, events[0]), events.drop_first());
    }
}

/// Whatever the events, the starts of a run are granted as the rate limiter
/// schedules the requests that were answered with them.
pub proof fn lemma_starts_follow_schedule(v: RunnerView, events: Seq<Event>)
    ensures
        granted_at(starts_of(v, events)) == schedule(
            v.rate,
            v.next_free,
            asked_at(starts_of(v, events)),
        ),
        after_all(v, events).rate == v.rate,
    decreases events.len(),
{
    let starts = starts_of(v, events);
    if events.len() == 0 {
        assert(granted_at(starts) =~= Seq::<u64>::empty());
    } else {
        let w = after(v, events[0]);
        let rest = starts_of(w, events.drop_first());
        lemma_starts_follow_schedule(w, events.drop_first());
        match start_of(v, events[0]) {
            Some(start) => {
                assert(starts =~= seq![start] + rest);
                assert(asked_at(starts).drop_first() =~= asked_at(rest));
                assert(granted_at(starts) =~= seq![start.2] + granted_at(rest));
            },
            None => {
                assert(w.next_free == v.next_free);
            },
        }
    }
}

/// Rate bound of a run. Whatever the events, while the clock lasts, the `k`
/// starts of a run at `rate` starts per second take, from the first granted
/// instant to the last, `(k - 1) / rate` seconds or more.
pub proof fn lemma_run_rate_bound(v: RunnerView, events: Seq<Event>)
    requires
        v.rate > 0,
        starts_of(v, events).len() > 0,
        starts_of(v, events).last().2 + interval_for(v.rate) <= u64::MAX,
    ensures
        v.rate * (starts_of(v, events).last().2 - starts_of(v, events)[0].2) >= (starts_of(
            v,
            events,
        ).len() - 1) * NANOS_PER_SECOND,
{
    let starts = starts_of(v, events);
    lemma_starts_follow_schedule(v, events);
    let nows = asked_at(starts);
    let grants = schedule(v.rate, v.next_free, nows);
    assert(grants == granted_at(starts));
    assert(grants.last() == starts.last().2);
    assert(within_clock(v.rate, v.next_free, nows));
    lemma_rate_bound(v.rate, v.next_free, nows);
    assert(grants[0] == starts[0].2);
}

/// Identifiers are started in order, each once. Whatever the events, the
/// identifiers that a run starts are those that it had not handed out
/// before, in the order of its list, up to where it has come.
pub proof fn lemma_started_in_order(v: RunnerView, events: Seq<Event>)
    requires
        inv(v),
    ensures
        v.dispatched <= after_all(v, events).dispatched <= v.identifiers.len(),
        after_all(v, events).identifiers == v.identifiers,
        after_all(v, events).origin == v.origin,
        after_all(v, events).input == v.input,
        started_ids(starts_of(v, events)) == v.identifiers.subrange(
            v.dispatched as int,
            after_all(v, events).dispatched as int,
        ),
    decreases events.len(),
{
    let starts = starts_of(v, events);
    if events.len() == 0 {
        assert(started_ids(starts) =~= v.identifiers.subrange(
            v.dispatched as int,
            v.dispatched as int,
        ));
    } else {
        let w = after(v, events[0]);
        let rest = starts_of(w, events.drop_first());
        match events[0] {
            Event::Ask(now) => lemma_dispatch_keeps_inv(v, now),
            Event::Report(ticket, result) => lemma_complete_keeps_inv(v, ticket, result),
        }
        lemma_started_in_order(w, events.drop_first());
        let end = after_all(v, events).dispatched as int;
        match start_of(v, events[0]) {
            Some(start) => {
                assert(starts =~= seq![start] + rest);
                assert(started_ids(starts) =~= seq![start.1] + started_ids(rest));
                assert(started_ids(starts) =~= v.identifiers.subrange(v.dispatched as int, end));
            },
            None => {
                assert(w.dispatched == v.dispatched);
            },
        }
    }
}

/// Idempotence of a run. Whatever the events, no identifier is started for
/// which the cache recorded a success when the run was planned, and none is
/// started twice.
pub proof fn lemma_run_never_repeats_success(v: RunnerView, events: Seq<Event>)
    requires
        inv(v),
    ensures
        started_ids(starts_of(v, events)).no_duplicates(),
        forall|i: int|
            0 <= i < starts_of(v, events).len() ==> !is_success(
                v.origin,
                #[trigger] starts_of(v, events)[i].1,
            ),
{
    let starts = starts_of(v, events);
    let ids = started_ids(starts);
    lemma_started_in_order(v, events);
    lemma_success_set(v);
    crate::worklist::lemma_select_ids(v.input, v.origin, false);
    let from = v.dispatched as int;
    let to = after_all(v, events).dispatched as int;
    let handed = v.identifiers.subrange(from, to);
    assert(ids == handed);
    assert(handed.len() == to - from);
    assert forall|i: int| 0 <= i < starts.len() implies !is_success(
        v.origin,
        #[trigger] starts[i].1,
    ) by {
        assert(ids[i] == starts[i].1);
        assert(handed[i] == v.identifiers[from + i]);
    }
    assert forall|i: int, j: int| 0 <= i < ids.len() && 0 <= j < ids.len() && i != j implies ids[i]
        != ids[j] by {
        assert(handed[i] == v.identifiers[from + i]);
        assert(handed[j] == v.identifiers[from + j]);
    }
}

/// Whether the identifier at index `i` has ended, in success or in failure.
pub open spec fn ended(v: RunnerView, i: int) -> bool {
    v.states[i] == ItemState::Succeeded || v.states[i] == ItemState::Failed
}

/// Outcomes are final. Whatever the events, an identifier that has ended
/// stays as it ended, with the entry that the cache holds for it; and the
/// entries of identifiers that are none of the run's are never touched.
pub proof fn lemma_outcomes_are_final(v: RunnerView, events: Seq<Event>)
    requires
        inv(v),
    ensures
        after_all(v, events).identifiers == v.identifiers,
        after_all(v, events).states.len() == v.states.len(),
        forall|i: int|
            0 <= i < v.states.len() && #[trigger] ended(v, i) ==> after_all(v, events).states[i]
                == v.states[i] && same_entry(after_all(v, events).cache, v.cache, v.identifiers[i]),
        forall|k: Seq<char>|
            !(#[trigger] v.identifiers.contains(k)) ==> same_entry(
                after_all(v, events).cache,
                v.cache,
                k,
            ),
    decreases events.len(),
{
    if events.len() > 0 {
        let w = after(v, events[0]);
        match events[0] {
            Event::Ask(now) => lemma_dispatch_keeps_inv(v, now),
            Event::Report(ticket, result) => lemma_complete_keeps_inv(v, ticket, result),
        }
        crate::worklist::lemma_select_ids(v.input, v.origin, false);
        lemma_outcomes_are_final(w, events.drop_first());
        let end = after_all(v, events);
        assert(w.identifiers == v.identifiers);
        assert forall|i: int| 0 <= i < v.states.len() && #[trigger] ended(v, i) implies end.states[i]
            == v.states[i] && same_entry(end.cache, v.cache, v.identifiers[i]) by {
            assert(w.states[i] == v.states[i]);
            assert(ended(w, i));
            match events[0] {
                Event::Ask(now) => {},
                Event::Report(ticket, result) => {
                    if ticket < v.states.len() && ticket != i {
                        assert(v.identifiers[ticket as int] != v.identifiers[i]);
                    }
                },
            }
            assert(same_entry(w.cache, v.cache, v.identifiers[i]));
        }
        assert forall|k: Seq<char>| !(#[trigger] v.identifiers.contains(k)) implies same_entry(
            end.cache,
            v.cache,
            k,
        ) by {
            assert(!w.identifiers.contains(k));
            match events[0] {
                Event::Ask(now) => {},
                Event::Report(ticket, result) => {
                    if ticket < v.states.len() {
                        assert(v.identifiers.contains(v.identifiers[ticket as int]));
                    }
                },
            }
            assert(same_entry(w.cache, v.cache, k));
        }
    }
}

} // verus!
