use zircuit_fetcher::aggregate::Aggregator;
use zircuit_fetcher::claim::WorkCursor;
use zircuit_fetcher::config::RunConfig;
use zircuit_fetcher::records::FetchError;
use zircuit_fetcher::records::User;
use zircuit_fetcher::records::fetch_user_info;
use zircuit_fetcher::retry::AttemptOutcome;
use zircuit_fetcher::retry::RetryPolicy;
use zircuit_fetcher::retry::RetryStatus;
use zircuit_fetcher::retry::backoff_delay_ms;
use zircuit_fetcher::retry::retry_next;
use zircuit_fetcher::working_set::build_working_set;
use zircuit_fetcher::working_set::clean_identifiers;
use zircuit_fetcher::working_set::row_addresses;

fn record_for(address: &str) -> User {
    fetch_user_info(address, "{}").unwrap()
}

fn strings(xs: &[&str]) -> Vec<String> {
    xs.iter().map(|s| s.to_string()).collect()
}

/// Drive one whole single-threaded run: claim, "fetch", aggregate.
fn run_to_end(cursor: &mut WorkCursor, agg: &mut Aggregator, workers: usize) {
    let mut exited = 0;
    while exited < workers {
        match cursor.claim() {
            Some((_, address)) => {
                agg.accept(record_for(&address));
            },
            None => {
                exited += 1;
            },
        }
    }
    assert!(cursor.finished(workers));
}

#[test]
fn exclusions_are_dropped_before_the_run() {
    // three identifiers, one excluded, empty checkpoint, two clients
    let ids = strings(&["A", "B", "C"]);
    let exclusions = strings(&["B"]);
    let checkpoint: Vec<User> = Vec::new();
    let work = build_working_set(&ids, &exclusions, &checkpoint);
    assert_eq!(work, strings(&["A", "C"]));

    let mut cursor = WorkCursor::new(work);
    let mut agg = Aggregator::new(checkpoint, 250);
    run_to_end(&mut cursor, &mut agg, 2);

    let out: Vec<String> = agg.snapshot().iter().map(|u| u.address.clone()).collect();
    assert_eq!(out, strings(&["A", "C"]));
}

#[test]
fn resume_fetches_only_the_missing_identifier() {
    let prior = record_for("A");
    let checkpoint = vec![prior.clone()];
    let ids = strings(&["A", "B"]);
    let exclusions: Vec<String> = Vec::new();

    let work = build_working_set(&ids, &exclusions, &checkpoint);
    assert_eq!(work, strings(&["B"]));

    let mut cursor = WorkCursor::new(work);
    let mut agg = Aggregator::new(checkpoint, 250);
    run_to_end(&mut cursor, &mut agg, 2);

    let out = agg.snapshot();
    assert_eq!(out.len(), 2);
    // the prior record is untouched by the resumed run
    assert_eq!(out[0], prior);
    assert_eq!(out[1].address, "B");
}

#[test]
fn each_index_is_claimed_exactly_once() {
    let mut cursor = WorkCursor::new(strings(&["a", "b", "c"]));
    let mut seen: Vec<(usize, String)> = Vec::new();
    while let Some(p) = cursor.claim() {
        seen.push(p);
    }
    assert_eq!(
        seen,
        vec![(0, "a".to_string()), (1, "b".to_string()), (2, "c".to_string())]
    );
    assert_eq!(cursor.claim(), None);
    assert_eq!(cursor.total_len(), 3);
}

#[test]
fn termination_counts_every_worker() {
    let mut cursor = WorkCursor::new(strings(&["a"]));
    assert!(!cursor.finished(2));
    assert!(cursor.claim().is_some());
    assert!(!cursor.finished(2));
    assert!(cursor.claim().is_none()); // first worker sees the end
    assert!(!cursor.finished(2));
    assert!(cursor.claim().is_none()); // second worker sees the end
    assert!(cursor.finished(2));
}

#[test]
fn aggregator_never_keeps_two_records_for_one_identifier() {
    let mut agg = Aggregator::new(Vec::new(), 250);
    agg.accept(record_for("A"));
    agg.accept(record_for("B"));
    agg.accept(record_for("A"));
    let addresses: Vec<String> = agg.snapshot().iter().map(|u| u.address.clone()).collect();
    assert_eq!(addresses, strings(&["A", "B"]));
    assert_eq!(agg.received_so_far(), 3);
}

#[test]
fn aggregator_flushes_every_batch() {
    let mut agg = Aggregator::new(Vec::new(), 2);
    assert!(!agg.accept(record_for("A")));
    assert!(agg.accept(record_for("B")));
    assert!(!agg.accept(record_for("C")));
    assert!(agg.accept(record_for("D")));
}

#[test]
fn retry_success_after_failures_yields_the_first_try_record() {
    let policy = RetryPolicy::standard();
    let user = record_for("A");

    // succeeds at once
    let (status, sleep) = retry_next(&policy, 1, AttemptOutcome::Success(user.clone()));
    assert_eq!(status, RetryStatus::Done(user.clone()));
    assert_eq!(sleep, None);

    // fails four times, succeeds on the fifth attempt
    let mut attempt: u32 = 1;
    let mut delays: Vec<u64> = Vec::new();
    for _ in 0..4 {
        let err = FetchError::Transport("connection reset".to_string());
        let (status, sleep) = retry_next(&policy, attempt, AttemptOutcome::Failure(err));
        match status {
            RetryStatus::Attempting(n) => {
                delays.push(sleep.unwrap());
                attempt = n;
            },
            _ => panic!("should still be retrying"),
        }
    }
    assert_eq!(attempt, 5);
    assert_eq!(delays, vec![5000, 10000, 20000, 40000]);
    let (status, _) = retry_next(&policy, attempt, AttemptOutcome::Success(user.clone()));
    // the record comes out exactly as a first-attempt success hands it out
    assert_eq!(status, RetryStatus::Done(user));
}

#[test]
fn retry_exhausts_with_the_last_error() {
    let policy = RetryPolicy::standard();
    let mut attempt: u32 = 1;
    for i in 0..5 {
        let err = FetchError::BadStatus(500 + i as u16);
        let (status, sleep) = retry_next(&policy, attempt, AttemptOutcome::Failure(err));
        if i < 4 {
            assert!(matches!(status, RetryStatus::Attempting(_)));
            attempt += 1;
        } else {
            assert_eq!(status, RetryStatus::Exhausted(FetchError::BadStatus(504)));
            assert_eq!(sleep, None);
        }
    }
}

#[test]
fn backoff_doubles_and_is_capped() {
    let policy = RetryPolicy { max_attempts: 10, base_delay_ms: 5000, max_delay_ms: 300000 };
    assert_eq!(backoff_delay_ms(&policy, 1), 5000);
    assert_eq!(backoff_delay_ms(&policy, 2), 10000);
    assert_eq!(backoff_delay_ms(&policy, 6), 160000);
    assert_eq!(backoff_delay_ms(&policy, 7), 300000);
    assert_eq!(backoff_delay_ms(&policy, 9), 300000);
}

#[test]
fn clean_identifiers_drops_empty_and_duplicate_entries() {
    let raw = strings(&["a", "", "b", "a", "c", "b", ""]);
    assert_eq!(clean_identifiers(&raw), strings(&["a", "b", "c"]));
}

#[test]
fn row_addresses_keep_order_and_fill_gaps() {
    let rows = vec![Some("x".to_string()), None, Some("y".to_string())];
    assert_eq!(row_addresses(rows), strings(&["x", "", "y"]));
}

#[test]
fn exclusion_matching_ignores_ascii_case() {
    let ids = strings(&["0xAbCd", "0xffff"]);
    let exclusions = strings(&["0xABCD"]);
    let checkpoint: Vec<User> = Vec::new();
    assert_eq!(build_working_set(&ids, &exclusions, &checkpoint), strings(&["0xffff"]));
}

#[test]
fn standard_config_matches_the_reference_run() {
    let cfg = RunConfig::standard();
    assert_eq!(cfg.cooldown_ms, 1100);
    assert_eq!(cfg.batch_size, 250);
    let policy = RetryPolicy::standard();
    assert_eq!(policy.max_attempts, 5);
    assert_eq!(policy.base_delay_ms, 5000);
    assert_eq!(policy.max_delay_ms, 300000);
}
