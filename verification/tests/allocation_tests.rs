use ril::allocation::{allocate_workers, is_allocatable, share_cores, share_of};

#[test]
fn ties_in_remainders_go_to_the_earlier_stage() {
    // Spare 6 over times 100 and 300: exact shares 1.5 and 4.5.
    assert_eq!(allocate_workers(&vec![(1, 100), (3, 300)], 8), vec![(1, 3), (3, 5)]);
}

#[test]
fn largest_remainders_get_the_left_over_cores() {
    // Spare 9 over times 1, 2, 7: exact shares 0.9, 1.8, 6.3.
    assert_eq!(allocate_workers(&vec![(0, 1), (1, 2), (2, 7)], 12), vec![(0, 2), (1, 3), (2, 7)]);
}

#[test]
fn fewer_cores_than_stages_gives_one_each() {
    assert_eq!(allocate_workers(&vec![(0, 5), (2, 7), (4, 9)], 2), vec![(0, 1), (2, 1), (4, 1)]);
    assert_eq!(allocate_workers(&vec![(0, 5), (2, 7), (4, 9)], 3), vec![(0, 1), (2, 1), (4, 1)]);
}

#[test]
fn allocation_adds_up_and_follows_time() {
    let ts = vec![(0, 13), (1, 40), (2, 7), (3, 40), (4, 1)];
    for total in 5..40usize {
        let r = allocate_workers(&ts, total);
        let sum: usize = r.iter().map(|p| p.1).sum();
        assert_eq!(sum, total);
        assert!(r[1].1 >= r[0].1 && r[0].1 >= r[2].1 && r[2].1 >= r[4].1);
        assert!(r.iter().all(|p| p.1 >= 1));
        let diff = r[1].1 as i64 - r[3].1 as i64;
        assert!(diff.abs() <= 1);
    }
}

#[test]
fn single_stage_takes_every_core() {
    assert_eq!(allocate_workers(&vec![(7, 3)], 16), vec![(7, 16)]);
}

#[test]
fn share_cores_leaves_out_pinned_cores() {
    let (r, cores) = share_cores(&vec![(0, 5), (1, 0)], usize::MAX);
    assert!(cores >= 1);
    assert_eq!(r, Some(vec![(0, 1), (1, 1)]));
    assert_eq!(share_cores(&vec![], 0).0, Some(vec![]));
    let ts = vec![(2, 10), (5, 30)];
    for pinned in 0..4usize {
        let (r, cores) = share_cores(&ts, pinned);
        let r = r.unwrap();
        assert_eq!(r, share_of(&ts, cores, pinned));
        let sum: usize = r.iter().map(|p| p.1).sum();
        assert_eq!(sum, std::cmp::max(cores.saturating_sub(pinned), 2));
    }
}

#[test]
fn share_cores_refuses_stages_that_all_took_no_time() {
    let (r, cores) = share_cores(&vec![(0, 0), (1, 0)], 0);
    assert_eq!(r.is_none(), cores > 2);
    assert!(is_allocatable(&vec![(0, 0), (1, 0)], 2));
    assert!(!is_allocatable(&vec![(0, 0), (1, 0)], 3));
    assert!(is_allocatable(&vec![(0, 0)], 3));
    assert!(is_allocatable(&vec![(0, 0), (1, 1)], 3));
}

#[test]
fn share_of_splits_what_the_pinned_stages_leave() {
    // 12 cores, 4 pinned: 8 for two stages timed 100 and 300 (shares 1.5 and 4.5).
    assert_eq!(share_of(&vec![(1, 100), (3, 300)], 12, 4), vec![(1, 3), (3, 5)]);
    // A stage that reported no time gets no share of the spare cores.
    assert_eq!(share_of(&vec![(0, 0), (1, 1)], 3, 0), vec![(0, 1), (1, 2)]);
    assert_eq!(share_of(&vec![(0, 0), (2, 3)], 6, 0), vec![(0, 1), (2, 5)]);
    // Pinned stages took every core: one worker each.
    assert_eq!(share_of(&vec![(0, 9), (1, 1)], 4, 8), vec![(0, 1), (1, 1)]);
    assert_eq!(share_of(&vec![], 8, 0), vec![]);
}

#[test]
fn a_lone_stage_without_time_gets_one_extra_core() {
    assert_eq!(allocate_workers(&vec![(4, 0)], 8), vec![(4, 2)]);
    assert_eq!(allocate_workers(&vec![(4, 0)], 1), vec![(4, 1)]);
    assert_eq!(allocate_workers(&vec![], 8), vec![]);
}
