use mtg_fletch::search::{best_match, find_player};
use mtg_fletch::text::{ONE_KEY, MATCH_THRESHOLD_KEY};

fn names(list: &[&str]) -> Vec<String> {
    list.iter().map(|s| s.to_string()).collect()
}

#[test]
fn best_match_takes_last_of_equal_best() {
    let k = 0x3fee_0000_0000_0000u64; // 0.9375
    assert_eq!(best_match(&vec![1, k, 3, k, 2]), Some(3));
}

#[test]
fn best_match_needs_key_above_threshold() {
    assert_eq!(best_match(&vec![]), None);
    assert_eq!(best_match(&vec![MATCH_THRESHOLD_KEY, 5]), None);
    assert_eq!(best_match(&vec![MATCH_THRESHOLD_KEY + 1, 5]), Some(0));
    assert_eq!(best_match(&vec![ONE_KEY, MATCH_THRESHOLD_KEY]), Some(0));
}

#[test]
fn find_player_ignores_case() {
    let ps = names(&["Alice", "Bob", "Charlie"]);
    assert_eq!(find_player(&ps, "alice"), Some(0));
    assert_eq!(find_player(&ps, "BOB"), Some(1));
}

#[test]
fn find_player_tolerates_typos() {
    let ps = names(&["Alice", "Bob", "Charlie"]);
    assert_eq!(find_player(&ps, "Charlei"), Some(2));
}

#[test]
fn find_player_rejects_unrelated_names() {
    let ps = names(&["Alice", "Bob", "Charlie"]);
    assert_eq!(find_player(&ps, "Zed"), None);
    assert_eq!(find_player(&names(&[]), "Alice"), None);
}

#[test]
fn lookup_ignores_ascii_letter_case() {
    let ps = names(&["Alice", "Bob", "Charlie"]);
    let upper = names(&["ALICE", "bOB", "charlie"]);
    for q in ["alice", "Charlei", "Zed", "bob"] {
        let r = find_player(&ps, q);
        assert_eq!(find_player(&ps, &q.to_ascii_uppercase()), r);
        assert_eq!(find_player(&upper, q), r);
    }
}
