use birthday_paradox::calendar::{month_and_day, REFERENCE_YEAR};
use birthday_paradox::detect::get_match;
use birthday_paradox::sample::{get_birthdays, run_trial, sample_one, DAYS_IN_YEAR};
use birthday_paradox::simulate::{
    run_sequential, run_trials, ParallelTally, SequentialRun, PROGRESS_INTERVAL, TRIAL_BUDGET,
    WORKER_COUNT,
};

fn in_range(days: &[u16]) -> bool {
    days.iter().all(|&d| 1 <= d && d <= DAYS_IN_YEAR)
}

#[test]
fn distinct_values_have_no_match() {
    assert_eq!(get_match(&vec![4, 9, 1, 365, 200]), None);
}

#[test]
fn single_repeat_is_reported_once() {
    assert_eq!(get_match(&vec![3, 7, 3]), Some(vec![3]));
}

#[test]
fn two_repeats_are_both_reported() {
    assert_eq!(get_match(&vec![1, 1, 2, 2]), Some(vec![1, 2]));
}

#[test]
fn empty_and_single_sets_have_no_match() {
    assert_eq!(get_match(&vec![]), None);
    assert_eq!(get_match(&vec![42]), None);
}

#[test]
fn repeats_come_out_in_increasing_order() {
    assert_eq!(get_match(&vec![300, 5, 2, 300, 5, 2, 2, 9]), Some(vec![2, 5, 300]));
}

#[test]
fn value_seen_three_times_is_reported_once() {
    assert_eq!(get_match(&vec![8, 8, 8]), Some(vec![8]));
}

#[test]
fn large_values_are_detected() {
    assert_eq!(get_match(&vec![65535, 0, 65535]), Some(vec![65535]));
    assert_eq!(get_match(&vec![65535, 0, 65534]), None);
}

#[test]
fn birthdays_have_requested_length_and_range() {
    for n in [0u16, 1, 23, 365, 366, 1000] {
        let days = get_birthdays(n);
        assert_eq!(days.len(), n as usize);
        assert!(in_range(&days));
    }
}

#[test]
fn sample_one_is_consistent() {
    for n in [0u16, 1, 2, 23, 100, 366] {
        let (days, report) = sample_one(n);
        assert_eq!(days.len(), n as usize);
        assert!(in_range(&days));
        let mut expected: Vec<u16> = Vec::new();
        for d in 1..=DAYS_IN_YEAR {
            if days.iter().filter(|&&x| x == d).count() >= 2 {
                expected.push(d);
            }
        }
        if expected.is_empty() {
            assert_eq!(report, None);
        } else {
            assert_eq!(report, Some(expected));
        }
    }
}

#[test]
fn sample_one_of_zero_is_empty() {
    let (days, report) = sample_one(0);
    assert!(days.is_empty());
    assert_eq!(report, None);
}

#[test]
fn overfull_group_always_matches() {
    assert!(run_trial(366));
    assert_eq!(run_sequential(366, 200), 200);
    assert_eq!(run_trials(400, 50), 50);
}

#[test]
fn single_person_never_matches() {
    assert!(!run_trial(1));
    assert_eq!(run_sequential(1, 5000), 0);
    assert_eq!(run_sequential(0, 100), 0);
}

#[test]
fn empty_budget_counts_nothing() {
    assert_eq!(run_sequential(23, 0), 0);
}

#[test]
fn sequential_run_advances_in_steps() {
    let mut run = SequentialRun::new(366, 25);
    assert!(!run.is_finished());
    assert_eq!(run.advance(10), 10);
    assert_eq!(run.trials_done(), 10);
    assert_eq!(run.advance(10), 10);
    assert_eq!(run.advance(10), 5);
    assert!(run.is_finished());
    assert_eq!(run.trials_done(), 25);
    assert_eq!(run.match_count(), 25);
    assert_eq!(run.advance(10), 0);
}

#[test]
fn tally_sums_worker_counts() {
    let mut tally = ParallelTally::new(100, 10);
    assert_eq!(tally.chunk_size(), 10);
    let locals = [3usize, 0, 10, 7, 1, 1, 2, 9, 5, 4];
    for &c in locals.iter() {
        tally.record_worker(c);
    }
    assert_eq!(tally.completed_workers(), 10);
    assert_eq!(tally.match_count(), 42);
}

#[test]
fn tally_of_overfull_workers_equals_budget() {
    let mut tally = ParallelTally::new(60, 3);
    let chunk = tally.chunk_size();
    for _ in 0..3 {
        tally.record_worker(run_trials(366, chunk));
    }
    assert_eq!(tally.match_count(), 60);
}

fn parallel_by_chunks(set_size: u16, budget: usize, workers: usize) -> usize {
    let mut tally = ParallelTally::new(budget, workers);
    let chunk = tally.chunk_size();
    for _ in 0..workers {
        tally.record_worker(run_trials(set_size, chunk));
    }
    tally.match_count()
}

#[test]
fn sequential_and_chunked_rates_agree() {
    let budget = 20000;
    let seq = run_sequential(23, budget) as f64 / budget as f64;
    let par = parallel_by_chunks(23, budget, 10) as f64 / budget as f64;
    assert!((seq - par).abs() < 0.04, "{seq} vs {par}");
}

#[test]
fn match_rate_for_twenty_three_is_near_half() {
    let budget = 20000;
    for _ in 0..2 {
        let rate = run_sequential(23, budget) as f64 / budget as f64;
        assert!((rate - 0.5073).abs() < 0.03, "rate {rate}");
    }
}

#[test]
fn day_labels_follow_the_reference_calendar() {
    assert_eq!(REFERENCE_YEAR, 2024);
    assert_eq!(month_and_day(1), (0, 0));
    assert_eq!(month_and_day(32), (1, 0));
    assert_eq!(month_and_day(60), (1, 28));
    assert_eq!(month_and_day(61), (2, 0));
    assert_eq!(month_and_day(365), (11, 29));
}

#[test]
fn reference_configuration() {
    assert_eq!(TRIAL_BUDGET, 100000);
    assert_eq!(WORKER_COUNT, 10);
    assert_eq!(PROGRESS_INTERVAL, 10000);
    assert_eq!(TRIAL_BUDGET % WORKER_COUNT, 0);
}
