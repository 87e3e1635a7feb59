use weave_core::order::{choose_coordinate, order_preserving_union, order_within_gap, place_all};

#[test]
fn a_union_holds_each_element_once() {
    assert_eq!(
        order_preserving_union(&vec![1usize, 2, 4], &vec![1usize, 3, 4]),
        (vec![1, 2, 3, 4], false)
    );
    let (all, disagree) = order_preserving_union(&vec![1usize, 2], &vec![2usize, 1]);
    assert!(disagree);
    let mut sorted = all.clone();
    sorted.sort();
    assert_eq!(sorted, vec![1, 2]);
}

#[test]
fn an_order_nobody_changed_stands() {
    let base = vec![1usize, 2, 3];
    assert_eq!(
        choose_coordinate(&base, &vec![1usize, 3], &base, true),
        (vec![1, 2, 3], false)
    );
}

#[test]
fn the_one_side_that_moved_something_decides() {
    let base = vec![1usize, 2, 3];
    let moved = vec![3usize, 1, 2];
    assert_eq!(choose_coordinate(&base, &moved, &base, false), (moved.clone(), false));
    assert_eq!(choose_coordinate(&base, &base, &moved, false), (moved, false));
}

#[test]
fn two_sides_that_moved_things_contradict_only_where_order_matters() {
    let base = vec![1usize, 2, 3];
    let x = vec![1usize, 3, 2];
    let y = vec![2usize, 1, 3];
    assert_eq!(choose_coordinate(&base, &x, &y, false), (base.clone(), false));
    assert!(choose_coordinate(&base, &x, &y, true).1);
    assert_eq!(
        choose_coordinate(&base, &x, &y, true).1,
        choose_coordinate(&base, &y, &x, true).1
    );
}

#[test]
fn a_gap_follows_what_was_written() {
    let ours = vec![9usize, 5];
    let theirs = vec![7usize];
    assert_eq!(order_within_gap(vec![5usize, 7, 9], &ours, &theirs), vec![7, 9, 5]);
    assert_eq!(
        order_within_gap(vec![5usize, 7, 9], &theirs, &ours),
        order_within_gap(vec![5usize, 7, 9], &ours, &theirs)
    );
}

#[test]
fn an_addition_stands_behind_the_survivor_it_followed() {
    let survivors = vec![1usize, 2];
    let hidden: Vec<usize> = vec![];
    let added = vec![8usize];
    let ours = vec![1usize, 8, 2];
    let theirs = vec![1usize, 2];
    let placed: Vec<(usize, usize, bool, usize)> =
        place_all(&survivors, &hidden, &added, &ours, &theirs)
            .iter()
            .map(|p| (p.item, p.gap, p.added, p.within))
            .collect();
    assert_eq!(placed, vec![(1, 1, false, 0), (8, 1, true, 0), (2, 2, false, 0)]);
}

#[test]
fn a_union_keeps_both_orders_where_nothing_disagrees() {
    let (ours, theirs) = (vec![1usize, 5, 2, 3], vec![7usize, 1, 2, 8, 3]);
    let (all, disagree) = order_preserving_union(&ours, &theirs);
    assert!(!disagree);
    let of = |side: &[usize]| -> Vec<usize> {
        all.iter().copied().filter(|x| side.contains(x)).collect()
    };
    assert_eq!(of(&ours), ours);
    assert_eq!(of(&theirs), theirs);
}
