use ril::manager::{
    initial_workers, is_python_program, reassemble, split_rows, trimmed_mean_of, Profiler,
    PROFILE_BATCHES,
};
use ril::stages::WorkerMode;

#[test]
fn split_gives_earlier_workers_the_extra_rows() {
    assert_eq!(split_rows(10, 3), vec![(0, 4), (4, 3), (7, 3)]);
    assert_eq!(split_rows(2, 4), vec![(0, 1), (1, 1), (2, 0), (2, 0)]);
    assert_eq!(split_rows(9, 1), vec![(0, 9)]);
    assert_eq!(split_rows(0, 2), vec![(0, 0), (0, 0)]);
}

#[test]
fn split_covers_the_batch() {
    for total in 0..50usize {
        for n in 1..9usize {
            let parts = split_rows(total, n);
            let mut next = 0;
            for (off, len) in &parts {
                assert_eq!(*off, next);
                next += len;
            }
            assert_eq!(next, total);
        }
    }
}

#[test]
fn results_come_back_in_worker_order() {
    assert_eq!(reassemble(vec![(2, "c"), (0, "a"), (1, "b")], 3), Some(vec!["a", "b", "c"]));
    assert_eq!(reassemble(vec![(0, "x"), (1, "b"), (0, "a")], 2), Some(vec!["a", "b"]));
    assert_eq!(reassemble::<&str>(vec![], 0), Some(vec![]));
}

#[test]
fn incomplete_results_are_refused() {
    assert_eq!(reassemble(vec![(0, "a"), (0, "b")], 2), None);
    assert_eq!(reassemble(vec![(0, "a"), (2, "b")], 2), None);
}

#[test]
fn trimmed_mean_drops_fastest_and_slowest() {
    assert_eq!(trimmed_mean_of(&vec![10, 1, 5, 7, 100]), 7);
    assert_eq!(trimmed_mean_of(&vec![4, 4, 4]), 4);
    assert_eq!(trimmed_mean_of(&vec![u64::MAX, u64::MAX, u64::MAX, 0]), u64::MAX);
}

#[test]
fn profiler_reports_once_after_five_batches() {
    assert_eq!(PROFILE_BATCHES, 5);
    let mut p = Profiler::new(true);
    assert_eq!(p.record(10), None);
    assert_eq!(p.record(1), None);
    assert_eq!(p.record(5), None);
    assert_eq!(p.record(7), None);
    assert_eq!(p.record(100), Some(7));
    assert_eq!(p.record(3), None);
    let mut q = Profiler::new(false);
    for _ in 0..10 {
        assert_eq!(q.record(1), None);
    }
}

#[test]
fn workers_to_start_with() {
    assert_eq!(initial_workers(true, WorkerMode::Fixed(4)), 1);
    assert_eq!(initial_workers(false, WorkerMode::Fixed(4)), 4);
    assert_eq!(initial_workers(false, WorkerMode::Default), 1);
}

#[test]
fn python_programs_end_in_py() {
    assert!(is_python_program("clean.py"));
    assert!(is_python_program(".py"));
    assert!(!is_python_program("./transform"));
    assert!(!is_python_program("py"));
    assert!(!is_python_program("a.pyc"));
}
