use batch_runner::backoff::BackoffPolicy;
use batch_runner::cache::ProgressCache;
use batch_runner::error::RunError;
use batch_runner::keyed::StringMap;
use batch_runner::outcome::{ActionOutcome, ActionResult, CacheEntry, ClassifiedError, FailureKind};
use batch_runner::runner::{BatchRunner, Completion, Dispatch, RunSettings};
use batch_runner::summary::FailedItem;
use batch_runner::value::NewValue;

fn ids(names: &[&str]) -> Vec<String> {
    names.iter().map(|s| s.to_string()).collect()
}

fn settings(rate_limit: usize, retries: u8, workers: usize) -> RunSettings {
    RunSettings { rate_limit, retries, backoff: BackoffPolicy::Fixed { delay_ms: 10 }, workers }
}

/// Runs a planned run to its end, one identifier at a time. `answer` is the
/// action: it is handed the identifier, the value and the number of the
/// attempt. Returns every invocation made, with the instant of its start.
fn drive(
    runner: &mut BatchRunner,
    answer: &mut dyn FnMut(&str, &str, u32) -> ActionResult,
) -> Vec<(String, String, u64)> {
    let mut log = Vec::new();
    let mut now: u64 = 0;
    loop {
        match runner.dispatch(now) {
            Dispatch::Start { ticket, identifier, value, start_at } => {
                assert!(start_at >= now);
                now = start_at;
                let mut attempt = 0;
                loop {
                    log.push((identifier.clone(), value.clone(), now));
                    match runner.complete(ticket, answer(&identifier, &value, attempt)) {
                        Completion::Retry { delay_ms } => {
                            now += delay_ms * 1_000_000;
                            attempt += 1;
                        },
                        Completion::Recorded(_) => {
                            assert!(runner.needs_flush());
                            runner.mark_flushed();
                            break;
                        },
                        Completion::Ignored => panic!("a ticket in flight was ignored"),
                    }
                }
            },
            Dispatch::Busy => panic!("one worker at a time is never busy"),
            Dispatch::Drained => break,
        }
    }
    assert!(runner.is_finished());
    log
}

fn success(receipt: &str, retry_count: u8) -> CacheEntry {
    CacheEntry { outcome: ActionOutcome::Success(receipt.to_string()), retry_count }
}

#[test]
fn three_identifiers_one_transient_failure() {
    let mut runner = BatchRunner::plan(
        &ids(&["A", "B", "C"]),
        &NewValue::Single("X".to_string()),
        settings(2, 1, 1),
        ProgressCache::new(),
    ).unwrap();
    let log = drive(
        &mut runner,
        &mut |id, value, attempt| {
            assert_eq!(value, "X");
            if id == "B" && attempt == 0 {
                Err(ClassifiedError::transient("timeout".to_string()))
            } else {
                Ok(format!("sig-{}", id))
            }
        },
    );
    assert_eq!(log.len(), 4);
    let (summary, cache) = runner.finish();
    assert_eq!(summary.succeeded, 3);
    assert_eq!(summary.failed, 0);
    assert_eq!(summary.skipped, 0);
    assert!(summary.failures.is_empty());
    assert!(summary.is_clean());
    assert_eq!(cache.len(), 3);
    assert_eq!(cache.get(&"A".to_string()), Some(&success("sig-A", 0)));
    assert_eq!(cache.get(&"B".to_string()), Some(&success("sig-B", 1)));
    assert_eq!(cache.get(&"C".to_string()), Some(&success("sig-C", 0)));
}

#[test]
fn incomplete_value_map_fails_before_any_dispatch() {
    let mut values = StringMap::new();
    values.insert("A".to_string(), "x".to_string());
    values.insert("B".to_string(), "y".to_string());
    let payload = NewValue::List(values);
    assert_eq!(payload.first_missing(&ids(&["A", "B", "C"])), Some(2));
    let planned =
        BatchRunner::plan(&ids(&["A", "B", "C"]), &payload, settings(2, 1, 1), ProgressCache::new());
    assert_eq!(planned.err(), Some(RunError::IncompleteValueMap));
}

#[test]
fn complete_value_map_gives_each_identifier_its_value() {
    let mut values = StringMap::new();
    values.insert("A".to_string(), "x".to_string());
    values.insert("B".to_string(), "y".to_string());
    values.insert("A".to_string(), "z".to_string());
    let payload = NewValue::List(values);
    assert_eq!(payload.first_missing(&ids(&["B", "A"])), None);
    let mut runner =
        BatchRunner::plan(&ids(&["B", "A"]), &payload, settings(5, 0, 1), ProgressCache::new())
            .unwrap();
    let log = drive(&mut runner, &mut |_, _, _| Ok("r".to_string()));
    let seen: Vec<(String, String)> = log.into_iter().map(|(i, v, _)| (i, v)).collect();
    assert_eq!(
        seen,
        vec![("B".to_string(), "y".to_string()), ("A".to_string(), "z".to_string())]
    );
}

#[test]
fn empty_list_is_an_error() {
    let planned = BatchRunner::plan(
        &Vec::new(),
        &NewValue::Single("X".to_string()),
        settings(1, 0, 1),
        ProgressCache::new(),
    );
    assert_eq!(planned.err(), Some(RunError::EmptyIdentifierList));
    let mut values = StringMap::new();
    values.insert("A".to_string(), "x".to_string());
    let planned =
        BatchRunner::plan(&Vec::new(), &NewValue::List(values), settings(1, 0, 1), ProgressCache::new());
    assert_eq!(planned.err(), Some(RunError::EmptyIdentifierList));
}

#[test]
fn recorded_success_is_not_invoked_again() {
    let mut cache = ProgressCache::new();
    cache.record("A".to_string(), success("old", 0));
    cache.record(
        "B".to_string(),
        CacheEntry {
            outcome: ActionOutcome::Failure(FailureKind::Permanent, "no".to_string()),
            retry_count: 0,
        },
    );
    let mut runner = BatchRunner::plan(
        &ids(&["A", "B", "C"]),
        &NewValue::Single("X".to_string()),
        settings(10, 0, 1),
        cache,
    ).unwrap();
    let log = drive(&mut runner, &mut |id, _, _| Ok(format!("new-{}", id)));
    let invoked: Vec<&str> = log.iter().map(|(i, _, _)| i.as_str()).collect();
    assert_eq!(invoked, vec!["B", "C"]);
    let (summary, cache) = runner.finish();
    assert_eq!((summary.succeeded, summary.failed, summary.skipped), (2, 0, 1));
    assert_eq!(cache.get(&"A".to_string()), Some(&success("old", 0)));
    assert_eq!(cache.get(&"B".to_string()), Some(&success("new-B", 0)));

    let mut again = BatchRunner::plan(
        &ids(&["A", "B", "C"]),
        &NewValue::Single("X".to_string()),
        settings(10, 0, 1),
        cache,
    ).unwrap();
    assert_eq!(again.dispatch(0), Dispatch::Drained);
    assert!(again.is_finished());
    let (summary, _) = again.finish();
    assert_eq!((summary.succeeded, summary.failed, summary.skipped), (0, 0, 3));
}

#[test]
fn interrupted_run_resumes_with_the_unresolved() {
    let list = ids(&["A", "B", "C", "D"]);
    let mut first = BatchRunner::plan(
        &list,
        &NewValue::Single("X".to_string()),
        settings(10, 0, 2),
        ProgressCache::new(),
    ).unwrap();
    let a = match first.dispatch(0) {
        Dispatch::Start { ticket, .. } => ticket,
        other => panic!("{:?}", other),
    };
    let b = match first.dispatch(0) {
        Dispatch::Start { ticket, .. } => ticket,
        other => panic!("{:?}", other),
    };
    assert_eq!(first.complete(a, Ok("ra".to_string())), Completion::Recorded(success("ra", 0)));
    assert_eq!(
        first.complete(b, Err(ClassifiedError::permanent("bad".to_string()))),
        Completion::Recorded(
            CacheEntry {
                outcome: ActionOutcome::Failure(FailureKind::Permanent, "bad".to_string()),
                retry_count: 0,
            }
        )
    );
    // The run is interrupted here, with C handed out and D waiting.
    assert!(matches!(first.dispatch(0), Dispatch::Start { .. }));
    assert!(!first.is_finished());
    let (_, cache) = first.finish();
    assert_eq!(cache.len(), 2);

    let mut second =
        BatchRunner::plan(&list, &NewValue::Single("X".to_string()), settings(10, 0, 2), cache)
            .unwrap();
    let log = drive_two(&mut second);
    assert_eq!(log, vec!["B", "C", "D"]);
    let (summary, cache) = second.finish();
    assert_eq!((summary.succeeded, summary.failed, summary.skipped), (3, 0, 1));
    for id in ["A", "B", "C", "D"] {
        assert!(cache.succeeded(&id.to_string()));
    }
    assert_eq!(cache.get(&"A".to_string()), Some(&success("ra", 0)));
}

fn drive_two(runner: &mut BatchRunner) -> Vec<String> {
    let mut started = Vec::new();
    let mut open = Vec::new();
    loop {
        match runner.dispatch(0) {
            Dispatch::Start { ticket, identifier, .. } => {
                started.push(identifier);
                open.push(ticket);
            },
            Dispatch::Busy => {
                let ticket = open.remove(0);
                assert!(matches!(
                    runner.complete(ticket, Ok("ok".to_string())),
                    Completion::Recorded(_)
                ));
            },
            Dispatch::Drained => break,
        }
    }
    for ticket in open {
        assert!(matches!(runner.complete(ticket, Ok("ok".to_string())), Completion::Recorded(_)));
    }
    started
}

#[test]
fn failures_do_not_stop_the_run_and_are_listed() {
    let mut runner = BatchRunner::plan(
        &ids(&["A", "B", "C"]),
        &NewValue::Single("X".to_string()),
        settings(100, 2, 1),
        ProgressCache::new(),
    ).unwrap();
    let log = drive(
        &mut runner,
        &mut |id, _, attempt| match id {
            "A" => Err(ClassifiedError::permanent("unauthorized".to_string())),
            "B" => Err(ClassifiedError::transient(format!("timeout {}", attempt))),
            _ => Ok("sig".to_string()),
        },
    );
    let invoked: Vec<&str> = log.iter().map(|(i, _, _)| i.as_str()).collect();
    assert_eq!(invoked, vec!["A", "B", "B", "B", "C"]);
    let (summary, cache) = runner.finish();
    assert_eq!((summary.succeeded, summary.failed, summary.skipped), (1, 2, 0));
    assert!(!summary.is_clean());
    assert_eq!(
        summary.failures,
        vec![
            FailedItem { identifier: "A".to_string(), reason: "unauthorized".to_string() },
            FailedItem { identifier: "B".to_string(), reason: "timeout 2".to_string() },
        ]
    );
    assert_eq!(
        cache.get(&"A".to_string()),
        Some(
            &CacheEntry {
                outcome: ActionOutcome::Failure(FailureKind::Permanent, "unauthorized".to_string()),
                retry_count: 0,
            }
        )
    );
    assert_eq!(
        cache.get(&"B".to_string()),
        Some(
            &CacheEntry {
                outcome: ActionOutcome::Failure(
                    FailureKind::RetriesExhausted,
                    "timeout 2".to_string()
                ),
                retry_count: 2,
            }
        )
    );
    assert!(cache.succeeded(&"C".to_string()));
    assert!(!cache.succeeded(&"A".to_string()));
    assert!(!cache.succeeded(&"Z".to_string()));
}

#[test]
fn every_failure_still_ends_in_a_summary() {
    let mut runner = BatchRunner::plan(
        &ids(&["A", "B"]),
        &NewValue::Single("X".to_string()),
        settings(100, 0, 1),
        ProgressCache::new(),
    ).unwrap();
    drive(&mut runner, &mut |_, _, _| Err(ClassifiedError::transient("down".to_string())));
    let (summary, _) = runner.finish();
    assert_eq!((summary.succeeded, summary.failed, summary.skipped), (0, 2, 0));
}

#[test]
fn starts_are_spaced_by_the_rate() {
    let mut runner = BatchRunner::plan(
        &ids(&["A", "B", "C", "D", "E"]),
        &NewValue::Single("X".to_string()),
        settings(2, 0, 1),
        ProgressCache::new(),
    ).unwrap();
    let log = drive(&mut runner, &mut |_, _, _| Ok("sig".to_string()));
    let starts: Vec<u64> = log.iter().map(|(_, _, at)| *at).collect();
    assert_eq!(starts, vec![0, 500_000_000, 1_000_000_000, 1_500_000_000, 2_000_000_000]);
    // five identifiers at two per second take two seconds or more
    assert!(2 * (starts[4] - starts[0]) >= 4 * 1_000_000_000);
}

#[test]
fn pool_bounds_what_is_in_flight() {
    let mut runner = BatchRunner::plan(
        &ids(&["A", "B", "C"]),
        &NewValue::Single("X".to_string()),
        settings(1000, 0, 2),
        ProgressCache::new(),
    ).unwrap();
    assert!(matches!(runner.dispatch(0), Dispatch::Start { ticket: 0, .. }));
    assert!(matches!(runner.dispatch(0), Dispatch::Start { ticket: 1, .. }));
    assert_eq!(runner.dispatch(0), Dispatch::Busy);
    assert!(!runner.is_finished());
    assert!(matches!(runner.complete(1, Ok("r".to_string())), Completion::Recorded(_)));
    assert_eq!(
        runner.dispatch(5),
        Dispatch::Start {
            ticket: 2,
            identifier: "C".to_string(),
            value: "X".to_string(),
            start_at: 2_000_000,
        }
    );
    assert_eq!(runner.dispatch(5), Dispatch::Drained);
    assert!(matches!(runner.complete(0, Ok("r".to_string())), Completion::Recorded(_)));
    assert_eq!(runner.dispatch(5), Dispatch::Drained);
    assert!(!runner.is_finished());
    assert!(matches!(runner.complete(2, Ok("r".to_string())), Completion::Recorded(_)));
    assert!(runner.is_finished());
    assert_eq!(runner.summary().succeeded, 3);
}

#[test]
fn a_pool_of_no_workers_counts_as_one() {
    let mut runner = BatchRunner::plan(
        &ids(&["A", "B"]),
        &NewValue::Single("X".to_string()),
        settings(1000, 0, 0),
        ProgressCache::new(),
    ).unwrap();
    assert!(matches!(runner.dispatch(0), Dispatch::Start { ticket: 0, .. }));
    assert_eq!(runner.dispatch(0), Dispatch::Busy);
}

#[test]
fn unknown_and_finished_tickets_are_ignored() {
    let mut runner = BatchRunner::plan(
        &ids(&["A", "B"]),
        &NewValue::Single("X".to_string()),
        settings(1000, 3, 2),
        ProgressCache::new(),
    ).unwrap();
    assert_eq!(runner.complete(0, Ok("r".to_string())), Completion::Ignored);
    assert_eq!(runner.complete(7, Ok("r".to_string())), Completion::Ignored);
    assert!(matches!(runner.dispatch(0), Dispatch::Start { ticket: 0, .. }));
    assert_eq!(runner.complete(1, Ok("r".to_string())), Completion::Ignored);
    assert!(!runner.needs_flush());
    assert_eq!(runner.complete(0, Ok("r".to_string())), Completion::Recorded(success("r", 0)));
    assert!(runner.needs_flush());
    assert_eq!(
        runner.complete(0, Err(ClassifiedError::permanent("late".to_string()))),
        Completion::Ignored
    );
    assert_eq!(runner.summary().succeeded, 1);
    assert_eq!(runner.summary().failed, 0);
    assert_eq!(runner.cache().get(&"A".to_string()), Some(&success("r", 0)));
}

#[test]
fn cancelling_stops_handing_out_but_not_what_is_in_flight() {
    let mut runner = BatchRunner::plan(
        &ids(&["A", "B", "C"]),
        &NewValue::Single("X".to_string()),
        settings(1000, 1, 3),
        ProgressCache::new(),
    ).unwrap();
    assert!(matches!(runner.dispatch(0), Dispatch::Start { ticket: 0, .. }));
    runner.cancel();
    assert_eq!(runner.dispatch(0), Dispatch::Drained);
    assert!(!runner.is_finished());
    assert_eq!(
        runner.complete(0, Err(ClassifiedError::transient("t".to_string()))),
        Completion::Retry { delay_ms: 10 }
    );
    assert_eq!(runner.complete(0, Ok("r".to_string())), Completion::Recorded(success("r", 1)));
    assert!(runner.is_finished());
    let (summary, cache) = runner.finish();
    assert_eq!((summary.succeeded, summary.failed, summary.skipped), (1, 0, 0));
    assert_eq!(cache.len(), 1);
}

#[test]
fn repeated_identifiers_are_worked_on_once() {
    let mut cache = ProgressCache::new();
    cache.record("S".to_string(), success("old", 0));
    let mut runner = BatchRunner::plan(
        &ids(&["A", "S", "B", "A", "S", "B", "A"]),
        &NewValue::Single("X".to_string()),
        settings(1000, 0, 1),
        cache,
    ).unwrap();
    let log = drive(&mut runner, &mut |_, _, _| Ok("sig".to_string()));
    let invoked: Vec<&str> = log.iter().map(|(i, _, _)| i.as_str()).collect();
    assert_eq!(invoked, vec!["A", "B"]);
    let (summary, _) = runner.finish();
    assert_eq!((summary.succeeded, summary.failed, summary.skipped), (2, 0, 1));
}

#[test]
fn a_failed_identifier_is_tried_again_by_the_next_run() {
    let list = ids(&["A"]);
    let mut first = BatchRunner::plan(
        &list,
        &NewValue::Single("X".to_string()),
        settings(1000, 0, 1),
        ProgressCache::new(),
    ).unwrap();
    drive(&mut first, &mut |_, _, _| Err(ClassifiedError::permanent("no".to_string())));
    let (summary, cache) = first.finish();
    assert_eq!(summary.failed, 1);
    let mut second =
        BatchRunner::plan(&list, &NewValue::Single("X".to_string()), settings(1000, 0, 1), cache)
            .unwrap();
    let log = drive(&mut second, &mut |_, _, _| Ok("yes".to_string()));
    assert_eq!(log.len(), 1);
    let (summary, cache) = second.finish();
    assert_eq!((summary.succeeded, summary.failed, summary.skipped), (1, 0, 0));
    assert_eq!(cache.len(), 1);
    assert_eq!(cache.get(&"A".to_string()), Some(&success("yes", 0)));
}
