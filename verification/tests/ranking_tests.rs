use mtg_fletch::ranking::rank_order;

#[test]
fn descending_rank_keeps_ties_in_order() {
    assert_eq!(rank_order(&vec![10, 30, 20, 30], true), vec![1, 3, 2, 0]);
}

#[test]
fn ascending_rank_keeps_ties_in_order() {
    assert_eq!(rank_order(&vec![10, 30, 10, 5], false), vec![3, 0, 2, 1]);
}

#[test]
fn rank_of_nothing_is_empty() {
    assert_eq!(rank_order(&vec![], true), Vec::<usize>::new());
}

#[test]
fn ranking_lists_everyone_once_and_is_repeatable() {
    let keys = vec![7, 3, 7, 9, 1, 3];
    let a = rank_order(&keys, true);
    let mut seen = a.clone();
    seen.sort();
    assert_eq!(seen, vec![0, 1, 2, 3, 4, 5]);
    assert_eq!(a, rank_order(&keys, true));
    assert_eq!(a, vec![3, 0, 2, 1, 5, 4]);
}
