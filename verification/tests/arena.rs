use matchmaking::Arena;

fn names<'a>(ids: Vec<&&'a str>) -> Vec<&'a str> {
    let mut out: Vec<&'a str> = ids.into_iter().map(|id| *id).collect();
    out.sort();
    out
}

#[test]
fn new_arena_matches_nobody() {
    let arena: Arena<&str> = Arena::new();
    assert!(arena.rank_match().is_empty());
    assert_eq!(arena.checked_rank_match(), Some(Vec::new()));
}

#[test]
fn insert_reports_no_previous_window_for_a_newcomer() {
    let mut arena = Arena::new();
    assert_eq!(arena.insert("boybook", 100), None);
    assert_eq!(arena.insert("luojia65", 101), None);
}

#[test]
fn insert_replaces_and_reports_the_previous_window() {
    let mut arena = Arena::new();
    assert_eq!(arena.insert("boybook", 100), None);
    assert_eq!(arena.insert("boybook", 7), Some((100, 100)));
    assert_eq!(arena.insert("boybook", 9), Some((7, 7)));
    assert_eq!(names(arena.rank_match()), vec!["boybook"]);
}

#[test]
fn insert_replaces_a_widened_window_by_a_point() {
    let mut arena = Arena::new();
    arena.insert("boybook", 100);
    arena.rank_update();
    arena.rank_update();
    assert_eq!(arena.insert("boybook", 50), Some((98, 102)));
    assert_eq!(arena.remove(&"boybook"), Some((50, 50)));
}

#[test]
fn remove_hands_back_the_window_and_forgets_the_participant() {
    let mut arena = Arena::new();
    arena.insert("boybook", 100);
    arena.insert("luojia65", 101);
    assert_eq!(arena.remove(&"boybook"), Some((100, 100)));
    assert_eq!(arena.remove(&"boybook"), None);
    assert_eq!(names(arena.rank_match()), vec!["luojia65"]);
    assert_eq!(arena.remove(&"luojia65"), Some((101, 101)));
    assert!(arena.rank_match().is_empty());
}

#[test]
fn remove_of_a_stranger_changes_nothing() {
    let mut arena = Arena::new();
    arena.insert("boybook", 100);
    arena.insert("luojia65", 101);
    arena.rank_update();
    assert_eq!(arena.remove(&"nobody"), None);
    assert_eq!(names(arena.rank_match()), vec!["boybook", "luojia65"]);
    assert_eq!(arena.remove(&"boybook"), Some((99, 101)));
    assert_eq!(arena.remove(&"luojia65"), Some((100, 102)));
}

#[test]
fn remove_from_an_empty_arena_finds_nothing() {
    let mut arena: Arena<u32> = Arena::new();
    assert_eq!(arena.remove(&3), None);
    assert!(arena.rank_match().is_empty());
}

#[test]
fn remove_accepts_a_borrowed_form_of_the_key() {
    let mut arena: Arena<Box<u32>> = Arena::new();
    arena.insert(Box::new(7), 100);
    arena.insert(Box::new(8), 101);
    let seven: u32 = 7;
    assert_eq!(arena.remove(&seven), Some((100, 100)));
    assert_eq!(arena.remove(&seven), None);
    assert_eq!(arena.rank_match(), vec![&Box::new(8)]);
}

#[test]
fn insert_and_remove_restore_the_arena() {
    let mut arena = Arena::new();
    arena.insert("boybook", 100);
    arena.insert("luojia65", 101);
    arena.rank_update();
    let before = names(arena.rank_match());
    assert_eq!(arena.insert("guest", 100), None);
    assert_eq!(arena.remove(&"guest"), Some((100, 100)));
    assert_eq!(names(arena.rank_match()), before);
    assert_eq!(arena.remove(&"guest"), None);
    assert_eq!(arena.remove(&"boybook"), Some((99, 101)));
    assert_eq!(arena.remove(&"luojia65"), Some((100, 102)));
    assert!(arena.rank_match().is_empty());
}

#[test]
fn insert_over_a_waiting_participant_is_not_undone_by_remove() {
    let mut arena = Arena::new();
    arena.insert("boybook", 100);
    assert_eq!(arena.insert("boybook", 4), Some((100, 100)));
    assert_eq!(arena.remove(&"boybook"), Some((4, 4)));
    assert_eq!(arena.remove(&"boybook"), None);
}

#[test]
fn rank_update_widens_by_one_on_each_side() {
    let mut arena = Arena::new();
    arena.insert("boybook", 100);
    arena.rank_update();
    assert_eq!(arena.remove(&"boybook"), Some((99, 101)));
}

#[test]
fn rank_update_widens_every_window() {
    let mut arena = Arena::new();
    arena.insert(1u8, 10);
    arena.insert(2u8, 20);
    arena.insert(3u8, 30);
    arena.rank_update();
    assert_eq!(arena.remove(&1), Some((9, 11)));
    assert_eq!(arena.remove(&2), Some((19, 21)));
    assert_eq!(arena.remove(&3), Some((29, 31)));
}

#[test]
fn rank_update_keeps_the_participants() {
    let mut arena = Arena::new();
    arena.insert("boybook", 100);
    arena.insert("luojia65", 300);
    arena.rank_update();
    assert_eq!(arena.insert("boybook", 1), Some((99, 101)));
    assert_eq!(arena.insert("luojia65", 1), Some((299, 301)));
    assert_eq!(arena.insert("guest", 1), None);
}

#[test]
fn width_grows_by_two_per_tick() {
    let mut arena = Arena::new();
    arena.insert("boybook", 100);
    for _ in 0..7 {
        arena.rank_update();
    }
    let (lo, hi) = arena.remove(&"boybook").unwrap();
    assert_eq!((lo, hi), (93, 107));
    assert_eq!(hi - lo, 14);
}

#[test]
fn width_of_a_widened_window_keeps_growing_by_two() {
    let mut arena = Arena::new();
    arena.insert("boybook", 100);
    arena.insert("luojia65", 50);
    arena.rank_update();
    arena.insert("luojia65", 60);
    arena.rank_update();
    arena.rank_update();
    assert_eq!(arena.remove(&"boybook"), Some((97, 103)));
    assert_eq!(arena.remove(&"luojia65"), Some((58, 62)));
}

#[test]
fn rank_update_stops_at_the_lowest_rank() {
    let mut arena = Arena::new();
    arena.insert("low", 1);
    arena.rank_update();
    arena.rank_update();
    arena.rank_update();
    assert_eq!(arena.remove(&"low"), Some((0, 4)));
}

#[test]
fn rank_update_stops_at_the_highest_rank() {
    let mut arena = Arena::new();
    arena.insert("high", usize::MAX - 1);
    arena.rank_update();
    arena.rank_update();
    arena.rank_update();
    assert_eq!(arena.remove(&"high"), Some((usize::MAX - 4, usize::MAX)));
}

#[test]
fn rank_update_of_an_empty_arena_does_nothing() {
    let mut arena: Arena<u64> = Arena::new();
    arena.rank_update();
    assert!(arena.rank_match().is_empty());
    assert_eq!(arena.insert(5, 5), None);
}

#[test]
fn rank_match_of_one_participant_is_that_participant() {
    let mut arena = Arena::new();
    arena.insert("boybook", 100);
    assert_eq!(arena.rank_match(), vec![&"boybook"]);
}

#[test]
fn rank_match_of_one_participant_at_the_lowest_rank() {
    let mut arena = Arena::new();
    arena.insert("low", 0);
    assert_eq!(arena.rank_match(), vec![&"low"]);
    arena.rank_update();
    assert_eq!(arena.rank_match(), vec![&"low"]);
}

#[test]
fn rank_match_of_one_participant_at_the_highest_rank() {
    let mut arena = Arena::new();
    arena.insert("high", usize::MAX);
    assert_eq!(arena.rank_match(), vec![&"high"]);
    arena.rank_update();
    assert_eq!(arena.rank_match(), vec![&"high"]);
    assert_eq!(arena.remove(&"high"), Some((usize::MAX - 1, usize::MAX)));
}

#[test]
fn rank_match_of_disjoint_points_takes_the_lower_rank() {
    let mut arena = Arena::new();
    arena.insert("boybook", 100);
    arena.insert("luojia65", 101);
    assert_eq!(arena.rank_match(), vec![&"boybook"]);
}

#[test]
fn rank_match_of_disjoint_points_does_not_depend_on_who_came_first() {
    let mut arena = Arena::new();
    arena.insert("luojia65", 101);
    arena.insert("boybook", 100);
    assert_eq!(arena.rank_match(), vec![&"boybook"]);
}

#[test]
fn rank_match_after_one_tick_takes_both() {
    let mut arena = Arena::new();
    arena.insert("boybook", 100);
    arena.insert("luojia65", 101);
    arena.rank_update();
    assert_eq!(names(arena.rank_match()), vec!["boybook", "luojia65"]);
}

#[test]
fn rank_match_prefers_the_rank_that_more_accept() {
    let mut arena = Arena::new();
    arena.insert("a", 10);
    arena.insert("b", 50);
    arena.insert("c", 50);
    arena.insert("d", 90);
    assert_eq!(names(arena.rank_match()), vec!["b", "c"]);
}

#[test]
fn rank_match_takes_the_lowest_of_equally_good_ranks() {
    let mut arena = Arena::new();
    arena.insert("a", 10);
    arena.insert("b", 10);
    arena.insert("c", 50);
    arena.insert("d", 50);
    assert_eq!(names(arena.rank_match()), vec!["a", "b"]);
}

#[test]
fn rank_match_finds_the_overlap_of_three_windows() {
    let mut arena = Arena::new();
    arena.insert("a", 10);
    arena.insert("b", 12);
    arena.insert("c", 14);
    assert_eq!(names(arena.rank_match()), vec!["a"]);
    arena.rank_update();
    // (9, 11), (11, 13), (13, 15): rank 11 is the lowest that two accept.
    assert_eq!(names(arena.rank_match()), vec!["a", "b"]);
    arena.rank_update();
    // (8, 12), (10, 14), (12, 16): all three accept rank 12.
    assert_eq!(names(arena.rank_match()), vec!["a", "b", "c"]);
}

#[test]
fn rank_match_leaves_out_who_does_not_accept_the_rank() {
    let mut arena = Arena::new();
    arena.insert("a", 10);
    arena.insert("b", 11);
    arena.insert("far", 1000);
    arena.rank_update();
    assert_eq!(names(arena.rank_match()), vec!["a", "b"]);
}

#[test]
fn rank_match_twice_gives_the_same_answer() {
    let mut arena = Arena::new();
    for (i, rank) in [40usize, 42, 44, 41, 90, 43].iter().enumerate() {
        arena.insert(i, *rank);
    }
    arena.rank_update();
    arena.rank_update();
    let first: Vec<usize> = arena.rank_match().into_iter().copied().collect();
    let second: Vec<usize> = arena.rank_match().into_iter().copied().collect();
    assert_eq!(first, second);
    let mut sorted = first.clone();
    sorted.sort();
    assert_eq!(sorted, vec![0, 1, 2, 3, 5]);
}

#[test]
fn rank_match_names_nobody_twice() {
    let mut arena = Arena::new();
    for id in 0..50u32 {
        arena.insert(id, 500);
    }
    let mut matched: Vec<u32> = arena.rank_match().into_iter().copied().collect();
    matched.sort();
    assert_eq!(matched, (0..50u32).collect::<Vec<u32>>());
}

#[test]
fn rank_match_does_not_change_the_arena() {
    let mut arena = Arena::new();
    arena.insert("boybook", 100);
    arena.insert("luojia65", 101);
    let _ = arena.rank_match();
    assert_eq!(arena.remove(&"boybook"), Some((100, 100)));
    assert_eq!(arena.remove(&"luojia65"), Some((101, 101)));
}

#[test]
fn checked_rank_match_agrees_with_rank_match() {
    let mut arena = Arena::new();
    arena.insert("boybook", 100);
    arena.insert("luojia65", 101);
    assert_eq!(arena.checked_rank_match(), Some(vec![&"boybook"]));
    arena.rank_update();
    assert_eq!(arena.checked_rank_match().map(names), Some(vec!["boybook", "luojia65"]));
}

#[test]
fn checked_rank_match_refuses_ranks_too_far_apart() {
    let mut arena = Arena::new();
    arena.insert("low", 0);
    arena.insert("high", usize::MAX);
    assert_eq!(arena.checked_rank_match(), None);
    arena.insert("low", 1);
    assert_eq!(arena.checked_rank_match(), None);
    arena.insert("low", 0);
    arena.insert("high", usize::MAX - 1);
    assert_eq!(arena.checked_rank_match(), None);
    assert_eq!(arena.remove(&"low"), Some((0, 0)));
    assert_eq!(arena.checked_rank_match(), Some(vec![&"high"]));
}

#[test]
fn clone_holds_the_same_windows_and_lives_on_its_own() {
    let mut arena = Arena::new();
    arena.insert("boybook", 100);
    arena.insert("luojia65", 101);
    let mut copy = arena.clone();
    copy.rank_update();
    assert_eq!(arena.rank_match(), vec![&"boybook"]);
    assert_eq!(names(copy.rank_match()), vec!["boybook", "luojia65"]);
    assert_eq!(arena.remove(&"boybook"), Some((100, 100)));
    assert_eq!(copy.remove(&"boybook"), Some((99, 101)));
}
