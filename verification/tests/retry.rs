use batch_runner::backoff::BackoffPolicy;
use batch_runner::outcome::{
    ActionOutcome, ActionResult, CacheEntry, ClassifiedError, ErrorClass, FailureKind,
};
use batch_runner::retry::{RetryController, RetryDecision};

/// Feeds the controller the results of successive invocations until it
/// settles; returns the entry and the number of invocations made.
fn settle_on(controller: &RetryController, results: Vec<ActionResult>) -> (Option<CacheEntry>, usize) {
    let mut used = 0u8;
    let mut attempts = 0;
    for result in results {
        attempts += 1;
        match controller.decide(used, result) {
            RetryDecision::Retry { retries_used, .. } => used = retries_used,
            RetryDecision::Finish(entry) => return (Some(entry), attempts),
        }
    }
    (None, attempts)
}

fn transient(message: &str) -> ActionResult {
    Err(ClassifiedError::transient(message.to_string()))
}

#[test]
fn fails_retries_times_then_succeeds() {
    let controller = RetryController::new(3, BackoffPolicy::Fixed { delay_ms: 5 });
    let (entry, attempts) = settle_on(
        &controller,
        vec![transient("a"), transient("b"), transient("c"), Ok("receipt".to_string())],
    );
    assert_eq!(attempts, 4);
    assert_eq!(
        entry,
        Some(CacheEntry { outcome: ActionOutcome::Success("receipt".to_string()), retry_count: 3 })
    );
}

#[test]
fn always_transient_exhausts_after_retries_plus_one() {
    let controller = RetryController::new(3, BackoffPolicy::Fixed { delay_ms: 5 });
    let results = (0..10).map(|i| transient(&format!("t{}", i))).collect();
    let (entry, attempts) = settle_on(&controller, results);
    assert_eq!(attempts, 4);
    assert_eq!(
        entry,
        Some(
            CacheEntry {
                outcome: ActionOutcome::Failure(FailureKind::RetriesExhausted, "t3".to_string()),
                retry_count: 3,
            }
        )
    );
}

#[test]
fn no_retries_allowed_means_one_attempt() {
    let controller = RetryController::new(0, BackoffPolicy::Fixed { delay_ms: 5 });
    let (entry, attempts) = settle_on(&controller, vec![transient("once"), Ok("late".to_string())]);
    assert_eq!(attempts, 1);
    assert_eq!(
        entry,
        Some(
            CacheEntry {
                outcome: ActionOutcome::Failure(FailureKind::RetriesExhausted, "once".to_string()),
                retry_count: 0,
            }
        )
    );
}

#[test]
fn permanent_failure_is_invoked_once() {
    for retries in [0u8, 1, 5, 255] {
        let controller = RetryController::new(retries, BackoffPolicy::Fixed { delay_ms: 5 });
        let (entry, attempts) = settle_on(
            &controller,
            vec![Err(ClassifiedError::permanent("invalid".to_string())), Ok("never".to_string())],
        );
        assert_eq!(attempts, 1);
        assert_eq!(
            entry,
            Some(
                CacheEntry {
                    outcome: ActionOutcome::Failure(FailureKind::Permanent, "invalid".to_string()),
                    retry_count: 0,
                }
            )
        );
    }
}

#[test]
fn permanent_failure_after_retries_keeps_the_count() {
    let controller = RetryController::new(4, BackoffPolicy::Fixed { delay_ms: 5 });
    let (entry, attempts) = settle_on(
        &controller,
        vec![transient("a"), transient("b"), Err(ClassifiedError::permanent("no".to_string()))],
    );
    assert_eq!(attempts, 3);
    assert_eq!(
        entry,
        Some(
            CacheEntry {
                outcome: ActionOutcome::Failure(FailureKind::Permanent, "no".to_string()),
                retry_count: 2,
            }
        )
    );
}

#[test]
fn unsettled_while_results_are_missing() {
    let controller = RetryController::new(4, BackoffPolicy::Fixed { delay_ms: 5 });
    let (entry, attempts) = settle_on(&controller, vec![transient("a"), transient("b")]);
    assert_eq!(entry, None);
    assert_eq!(attempts, 2);
}

#[test]
fn retry_carries_the_delay_of_the_policy() {
    let controller =
        RetryController::new(5, BackoffPolicy::Exponential { base_ms: 100, max_ms: 1000 });
    assert_eq!(
        controller.decide(0, transient("x")),
        RetryDecision::Retry { retries_used: 1, delay_ms: 100 }
    );
    assert_eq!(
        controller.decide(2, transient("x")),
        RetryDecision::Retry { retries_used: 3, delay_ms: 400 }
    );
    assert_eq!(
        controller.decide(4, transient("x")),
        RetryDecision::Retry { retries_used: 5, delay_ms: 1000 }
    );
    assert!(matches!(controller.decide(5, transient("x")), RetryDecision::Finish(_)));
}

#[test]
fn fixed_delay_is_constant() {
    let policy = BackoffPolicy::Fixed { delay_ms: 250 };
    for retry in [0u8, 1, 7, 255] {
        assert_eq!(policy.delay(retry), 250);
    }
}

#[test]
fn exponential_delay_doubles_up_to_its_ceiling() {
    let policy = BackoffPolicy::Exponential { base_ms: 100, max_ms: 1000 };
    let delays: Vec<u64> = (0u8..6).map(|r| policy.delay(r)).collect();
    assert_eq!(delays, vec![100, 200, 400, 800, 1000, 1000]);
    assert_eq!(policy.delay(255), 1000);
}

#[test]
fn exponential_delay_does_not_overflow() {
    let policy = BackoffPolicy::Exponential { base_ms: u64::MAX / 2 + 1, max_ms: u64::MAX };
    assert_eq!(policy.delay(0), u64::MAX / 2 + 1);
    assert_eq!(policy.delay(1), u64::MAX);
    assert_eq!(policy.delay(200), u64::MAX);
    let policy = BackoffPolicy::Exponential { base_ms: 3, max_ms: u64::MAX };
    assert_eq!(policy.delay(62), 3 << 62);
    assert_eq!(policy.delay(63), u64::MAX);
    let policy = BackoffPolicy::Exponential { base_ms: 0, max_ms: 50 };
    assert_eq!(policy.delay(255), 0);
    let policy = BackoffPolicy::Exponential { base_ms: 70, max_ms: 50 };
    assert_eq!(policy.delay(0), 50);
}

#[test]
fn classified_errors_keep_class_and_message() {
    let t = ClassifiedError::transient("slow".to_string());
    assert_eq!(t.class, ErrorClass::Transient);
    assert_eq!(t.message, "slow");
    let p = ClassifiedError::permanent("bad".to_string());
    assert_eq!(p.class, ErrorClass::Permanent);
    assert_eq!(p.clone(), p);
}

#[test]
fn outcome_detail_and_success_flag() {
    let ok = ActionOutcome::Success("sig".to_string());
    let ko = ActionOutcome::Failure(FailureKind::RetriesExhausted, "msg".to_string());
    assert!(ok.is_success());
    assert!(!ko.is_success());
    assert_eq!(ok.detail(), "sig");
    assert_eq!(ko.detail(), "msg");
    let entry = CacheEntry { outcome: ko.clone(), retry_count: 9 };
    assert!(!entry.is_success());
    assert_eq!(entry.clone(), entry);
}
