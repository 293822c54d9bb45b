use namt_preventative_collapse::FailureReason;
use namt_preventative_collapse::collapse_check;
use namt_preventative_collapse::first_failure;
use namt_preventative_collapse::pair_exists;
use namt_preventative_collapse::bench_iterations::collapse_check_alloc_and_sort_on_each_loop;
use namt_preventative_collapse::bench_iterations::collapse_check_are_references_better;
use namt_preventative_collapse::bench_iterations::collapse_check_narrowing_search;
use namt_preventative_collapse::bench_iterations::collapse_check_no_short_ciruit;
use namt_preventative_collapse::bench_iterations::collapse_check_with_more_short_circuiting;
use namt_preventative_collapse::window::advance_window;
use namt_preventative_collapse::window::init_window;

#[test]
fn early_warning_system_all_values_too_small() {
    let mut vec = vec![2, 1, 2, 7];
    let result = collapse_check(&mut vec, 3);
    assert_ne!(result, Ok(()));
}

#[test]
fn early_warning_system_all_values_too_big() {
    let mut vec = vec![6, 4, 5, 7];
    let result = collapse_check(&mut vec, 3);
    assert_ne!(result, Ok(()));
}

#[test]
fn general_warning_system() {
    let mut vec = vec![2, 1, 3, 5, 4, 7, 13];
    let result = collapse_check(&mut vec, 3);
    if !result.is_ok() {
        println!("{:?}", result);
    }
    assert_ne!(result, Ok(()));
}

#[test]
fn refs_early_warning_system_all_values_too_small() {
    let mut vec = vec![2, 1, 2, 7];
    let result = collapse_check_are_references_better(&mut vec, 3);
    if !result.is_ok() {
        println!("{:?}", result);
    }
    assert_ne!(result, Ok(()));
}

#[test]
fn refs_early_warning_system_all_values_too_big() {
    let mut vec = vec![6, 4, 5, 7];
    let result = collapse_check_are_references_better(&mut vec, 3);
    if !result.is_ok() {
        println!("{:?}", result);
    }
    assert_ne!(result, Ok(()));
}

#[test]
fn refs_general_warning_system() {
    let mut vec = vec![2, 1, 3, 5, 4, 7, 13];
    let result = collapse_check_are_references_better(&mut vec, 3);
    if !result.is_ok() {
        println!("{:?}", result);
    }
    assert_ne!(result, Ok(()));
}

#[test]
fn consistent_sequence_is_safe() {
    let mut vec = vec![1, 2, 3, 4];
    assert_eq!(collapse_check(&mut vec, 3), Ok(()));
    assert_eq!(vec, vec![1, 2, 3, 4]);
}

#[test]
fn unreachable_target_reported_as_max_too_small() {
    let mut vec = vec![1, 1, 1, 4];
    assert_eq!(collapse_check(&mut vec, 3), Err(FailureReason::MaxTooSmall));
}

#[test]
fn bounds_checked_before_search() {
    // The window {1, 2, 2} cannot pair up to 7, and the maximum bound
    // already says so: the bound verdict wins over the exhaustive one.
    let mut vec = vec![2, 1, 2, 7];
    assert_eq!(collapse_check(&mut vec, 3), Err(FailureReason::MaxTooSmall));
}

#[test]
fn overshooting_window_reported_as_min_too_big() {
    let mut vec = vec![6, 4, 5, 7];
    assert_eq!(collapse_check(&mut vec, 3), Err(FailureReason::MinTooBig));
}

#[test]
fn exhausted_search_reported_as_no_pair_found() {
    // Every step passes until 13: the trailing triple {5, 4, 7} pairs to
    // 9, 12 and 11 only, and neither bound rules 13 out.
    let mut vec = vec![2, 1, 3, 5, 4, 7, 13];
    assert_eq!(collapse_check(&mut vec, 3), Err(FailureReason::NoPairFound));
}

#[test]
fn sequence_no_longer_than_period_is_safe() {
    let mut vec = vec![9, 9, 9];
    assert_eq!(collapse_check(&mut vec, 3), Ok(()));
    let mut vec = vec![5, 6];
    assert_eq!(collapse_check(&mut vec, 7), Ok(()));
    let mut empty: Vec<u128> = vec![];
    assert_eq!(collapse_check(&mut empty, 1), Ok(()));
}

#[test]
fn pair_exists_finds_distinct_values() {
    let window = vec![(1, 0), (2, 1), (3, 2)];
    assert_eq!(pair_exists(&window, 5), Ok(()));
}

#[test]
fn pair_exists_accepts_equal_values_in_distinct_slots() {
    let window = vec![(5, 0), (5, 1)];
    assert_eq!(pair_exists(&window, 10), Ok(()));
}

#[test]
fn pair_exists_rejects_a_value_paired_with_itself() {
    // Only one entry holds 5, so 10 needs a second 5 that is not there;
    // neither bound rules 10 out for {3, 5, 9}.
    let window = vec![(3, 0), (5, 1), (9, 2)];
    assert_eq!(pair_exists(&window, 10), Err(FailureReason::NoPairFound));
}

#[test]
fn pair_exists_ignores_entries_above_the_target() {
    // 9 - 5 would leave 4, but 9 overshoots the target 5 and cannot be
    // half of any pair; no true pair exists in {2, 7, 9}.
    let window = vec![(2, 0), (7, 1), (9, 2)];
    assert_eq!(pair_exists(&window, 5), Err(FailureReason::NoPairFound));
}

#[test]
fn pair_exists_bound_verdicts() {
    let window = vec![(1, 0), (2, 1)];
    assert_eq!(pair_exists(&window, 100), Err(FailureReason::MaxTooSmall));
    let window = vec![(50, 0), (60, 1)];
    assert_eq!(pair_exists(&window, 10), Err(FailureReason::MinTooBig));
}

#[test]
fn pair_exists_finds_duplicate_left_of_the_scan() {
    let window = vec![(4, 0), (5, 1), (5, 2)];
    assert_eq!(pair_exists(&window, 10), Ok(()));
}

#[test]
fn values_near_the_integer_ceiling() {
    let half = u128::MAX / 2;
    // (2^127 - 1) + 2^127 == u128::MAX: reachable without any overflow.
    let mut vec = vec![half, half + 1, u128::MAX];
    assert_eq!(collapse_check(&mut vec, 2), Ok(()));
    // A window of two maximal values overshoots any target below their sum.
    let mut vec = vec![u128::MAX, u128::MAX, u128::MAX];
    assert_eq!(collapse_check(&mut vec, 2), Err(FailureReason::MinTooBig));
}

#[test]
fn window_is_sorted_after_initialization_and_advance() {
    let first = vec![3, 1, 2];
    let mut window = init_window(&first, 3);
    assert_eq!(window, vec![(1, 1), (2, 2), (3, 0)]);
    // Advancing evicts the oldest value 3 (slot 0), inserts 9 as the
    // newest (slot 2), and re-sorts; the other slots drop by one.
    advance_window(&mut window, 9, 3);
    assert_eq!(window, vec![(1, 0), (2, 1), (9, 2)]);
}

#[test]
fn window_slots_stay_a_permutation() {
    let first = vec![40, 10, 30, 20];
    let mut window = init_window(&first, 4);
    for incoming in [25, 15, 35, 5] {
        advance_window(&mut window, incoming, 4);
        let mut slots: Vec<usize> = Vec::new();
        for &(_, slot) in window.iter() {
            slots.push(slot);
        }
        slots.sort();
        assert_eq!(slots, vec![0, 1, 2, 3]);
        for pair in window.windows(2) {
            assert!(pair[0].0 <= pair[1].0);
        }
    }
}

#[test]
fn every_strategy_reports_the_same_outcome() {
    let samples: [(&[u128], usize); 5] = [
        (&[1, 2, 3, 4], 3),
        (&[1, 1, 1, 4], 3),
        (&[6, 4, 5, 7], 3),
        (&[2, 1, 3, 5, 4, 7, 13], 3),
        (&[1, 2, 3, 5, 8, 13, 21, 34], 2),
    ];
    for (sample, period) in samples {
        let mut vec = sample.to_vec();
        let expected = collapse_check(&mut vec, period);
        let mut vec = sample.to_vec();
        assert_eq!(collapse_check_alloc_and_sort_on_each_loop(&mut vec, period), expected);
        let mut vec = sample.to_vec();
        assert_eq!(collapse_check_are_references_better(&mut vec, period), expected);
        let mut vec = sample.to_vec();
        assert_eq!(collapse_check_with_more_short_circuiting(&mut vec, period), expected);
        let mut vec = sample.to_vec();
        assert_eq!(collapse_check_no_short_ciruit(&mut vec, period), expected);
        let mut vec = sample.to_vec();
        assert_eq!(collapse_check_narrowing_search(&mut vec, period), expected);
    }
}

#[test]
fn first_failure_locates_the_offending_index() {
    let vec = vec![1, 1, 1, 4];
    assert_eq!(first_failure(&vec, 3), Some((3, FailureReason::MaxTooSmall)));
    let vec = vec![2, 1, 3, 5, 4, 7, 13];
    assert_eq!(first_failure(&vec, 3), Some((6, FailureReason::NoPairFound)));
    let vec = vec![1, 2, 3, 4];
    assert_eq!(first_failure(&vec, 3), None);
    let vec = vec![9, 9, 9];
    assert_eq!(first_failure(&vec, 3), None);
}

#[test]
fn repeated_runs_report_the_same_failure() {
    let sample: Vec<u128> = vec![2, 1, 3, 5, 4, 7, 13];
    let mut first = sample.clone();
    let mut second = sample.clone();
    assert_eq!(collapse_check(&mut first, 3), collapse_check(&mut second, 3));
    assert_eq!(first, sample);
    assert_eq!(second, sample);
}
