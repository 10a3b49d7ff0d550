use matchmaking::coverage::{best_rank_between, rank_bounds};
use matchmaking::window::widen;

#[test]
fn widen_moves_both_ends_by_one() {
    assert_eq!(widen((100, 100)), (99, 101));
    assert_eq!(widen((99, 101)), (98, 102));
    assert_eq!(widen((1, usize::MAX - 1)), (0, usize::MAX));
}

#[test]
fn widen_stops_at_the_lowest_rank() {
    assert_eq!(widen((0, 0)), (0, 1));
    assert_eq!(widen((0, 7)), (0, 8));
}

#[test]
fn widen_stops_at_the_highest_rank() {
    assert_eq!(widen((usize::MAX, usize::MAX)), (usize::MAX - 1, usize::MAX));
    assert_eq!(widen((5, usize::MAX)), (4, usize::MAX));
}

#[test]
fn widen_leaves_a_window_that_spans_all_ranks() {
    assert_eq!(widen((0, usize::MAX)), (0, usize::MAX));
}

#[test]
fn rank_bounds_of_no_windows_are_none() {
    assert_eq!(rank_bounds(&Vec::new()), None);
}

#[test]
fn rank_bounds_of_one_window_are_its_ends() {
    assert_eq!(rank_bounds(&vec![(100, 100)]), Some((100, 100)));
    assert_eq!(rank_bounds(&vec![(3, 9)]), Some((3, 9)));
}

#[test]
fn rank_bounds_are_the_lowest_and_the_highest_end() {
    assert_eq!(rank_bounds(&vec![(99, 101), (100, 102)]), Some((99, 102)));
    assert_eq!(rank_bounds(&vec![(50, 60), (10, 20), (30, 90), (15, 16)]), Some((10, 90)));
    assert_eq!(rank_bounds(&vec![(0, 0), (usize::MAX, usize::MAX)]), Some((0, usize::MAX)));
}

#[test]
fn best_rank_of_one_point_is_that_point() {
    assert_eq!(best_rank_between(&vec![(100, 100)], 100, 100), 100);
    assert_eq!(best_rank_between(&vec![(0, 0)], 0, 0), 0);
}

#[test]
fn best_rank_of_one_window_is_its_lowest_rank() {
    assert_eq!(best_rank_between(&vec![(40, 60)], 40, 60), 40);
}

#[test]
fn best_rank_of_disjoint_points_is_the_lower() {
    assert_eq!(best_rank_between(&vec![(100, 100), (101, 101)], 100, 101), 100);
    assert_eq!(best_rank_between(&vec![(101, 101), (100, 100)], 100, 101), 100);
}

#[test]
fn best_rank_of_overlapping_windows_is_the_start_of_the_overlap() {
    assert_eq!(best_rank_between(&vec![(99, 101), (100, 102)], 99, 102), 100);
}

#[test]
fn best_rank_is_where_the_most_windows_meet() {
    let ws = vec![(1, 5), (4, 9), (5, 6), (8, 20), (5, 5)];
    assert_eq!(rank_bounds(&ws), Some((1, 20)));
    assert_eq!(best_rank_between(&ws, 1, 20), 5);
}

#[test]
fn best_rank_is_the_lowest_of_equally_good_ranks() {
    let ws = vec![(30, 31), (10, 12), (11, 13), (30, 31)];
    assert_eq!(best_rank_between(&ws, 10, 31), 11);
}

#[test]
fn best_rank_counts_a_window_that_closes_where_another_opens() {
    let ws = vec![(1, 3), (3, 5), (7, 7), (7, 7)];
    assert_eq!(best_rank_between(&ws, 1, 7), 3);
}

#[test]
fn best_rank_reaches_the_highest_rank() {
    let top = usize::MAX;
    let ws = vec![(top - 3, top), (top - 1, top), (top, top)];
    assert_eq!(best_rank_between(&ws, top - 3, top), top);
}
