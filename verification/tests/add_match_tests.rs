use mtg_fletch::add_match::{MatchEntry, Notice, Prompt};
use mtg_fletch::records::{MatchPlayer, MatchRecord};

fn names(list: &[&str]) -> Vec<String> {
    list.iter().map(|s| s.to_string()).collect()
}

#[test]
fn records_a_two_player_match() {
    let ps = names(&["Alice", "Bob", "Cleo"]);
    let mut e = MatchEntry::new(&ps);
    assert_eq!(e.prompt(), Prompt::PlayerCount);
    assert!(e.step(&ps, "2").is_empty());
    assert_eq!(e.prompt(), Prompt::PlayerName(1));
    assert_eq!(e.step(&ps, "cleo"), vec![Notice::Matched("Cleo".to_string())]);
    assert_eq!(e.prompt(), Prompt::Commander);
    assert!(e.step(&ps, "Edgar").is_empty());
    assert_eq!(e.prompt(), Prompt::PlayerName(2));
    assert_eq!(e.step(&ps, "alice"), vec![Notice::Matched("Alice".to_string())]);
    assert!(e.step(&ps, "Atraxa").is_empty());
    assert_eq!(e.prompt(), Prompt::Winner(names(&["Cleo", "Alice"])));
    let n = e.step(&ps, "2");
    assert_eq!(e.prompt(), Prompt::Finished);
    assert_eq!(n.len(), 1);
    match &n[0] {
        Notice::Recorded(o) => {
            assert_eq!(o.winner, 0);
            assert_eq!(o.losers, vec![2]);
            assert_eq!(
                o.record,
                MatchRecord {
                    players: vec![
                        MatchPlayer { player: "Cleo".to_string(), commander: "Edgar".to_string() },
                        MatchPlayer { player: "Alice".to_string(), commander: "Atraxa".to_string() },
                    ],
                    winner: "Alice".to_string(),
                }
            );
        }
        other => panic!("unexpected notice {:?}", other),
    }
}

#[test]
fn four_players_winner_beats_each_other_player() {
    let ps = names(&["Alice", "Bob", "Cleo", "Dora"]);
    let mut e = MatchEntry::new(&ps);
    e.step(&ps, "4");
    for who in ["Dora", "Bob", "Alice", "Cleo"] {
        e.step(&ps, who);
        e.step(&ps, "Deck");
    }
    let n = e.step(&ps, "2");
    match &n[0] {
        Notice::Recorded(o) => {
            assert_eq!(o.winner, 1);
            assert_eq!(o.losers, vec![3, 0, 2]);
            assert_eq!(o.record.winner, "Bob");
            assert_eq!(o.record.players.len(), 4);
        }
        other => panic!("unexpected notice {:?}", other),
    }
}

#[test]
fn invalid_player_count_ends_entry() {
    let ps = names(&["Alice"]);
    let mut e = MatchEntry::new(&ps);
    assert_eq!(e.step(&ps, "5"), vec![Notice::InvalidPlayerCount]);
    assert_eq!(e.prompt(), Prompt::Finished);
    let mut e = MatchEntry::new(&ps);
    assert_eq!(e.step(&ps, "1"), vec![Notice::InvalidPlayerCount]);
}

#[test]
fn unreadable_player_count_means_two() {
    let ps = names(&["Alice"]);
    let mut e = MatchEntry::new(&ps);
    assert!(e.step(&ps, "lots").is_empty());
    assert_eq!(e.prompt(), Prompt::PlayerName(1));
}

#[test]
fn same_player_twice_ends_entry() {
    let ps = names(&["Alice", "Bob"]);
    let mut e = MatchEntry::new(&ps);
    e.step(&ps, "3");
    e.step(&ps, "Bob");
    e.step(&ps, "Krenko");
    assert_eq!(
        e.step(&ps, "bob"),
        vec![Notice::Matched("Bob".to_string()), Notice::AlreadySelected]
    );
    assert_eq!(e.prompt(), Prompt::Finished);
}

#[test]
fn unknown_player_can_be_created() {
    let mut ps = names(&["Alice"]);
    let mut e = MatchEntry::new(&ps);
    e.step(&ps, "2");
    assert_eq!(e.step(&ps, "Zed"), vec![Notice::NoMatch("Zed".to_string())]);
    assert_eq!(e.prompt(), Prompt::CreatePlayer);
    assert_eq!(e.step(&ps, "Y"), vec![Notice::CreatePlayer("Zed".to_string())]);
    ps.push("Zed".to_string());
    assert_eq!(e.prompt(), Prompt::Commander);
    e.step(&ps, "Krenko");
    e.step(&ps, "alice");
    e.step(&ps, "Atraxa");
    let n = e.step(&ps, "1");
    match &n[0] {
        Notice::Recorded(o) => {
            assert_eq!(o.winner, 1);
            assert_eq!(o.losers, vec![0]);
            assert_eq!(o.record.winner, "Zed");
        }
        other => panic!("unexpected notice {:?}", other),
    }
}

#[test]
fn declining_creation_cancels() {
    let ps = names(&["Alice"]);
    let mut e = MatchEntry::new(&ps);
    e.step(&ps, "2");
    e.step(&ps, "Zed");
    assert_eq!(e.step(&ps, "n"), vec![Notice::Cancelled]);
    assert_eq!(e.prompt(), Prompt::Finished);
}

#[test]
fn winner_number_out_of_range() {
    let ps = names(&["Alice", "Bob"]);
    let mut e = MatchEntry::new(&ps);
    e.step(&ps, "2");
    e.step(&ps, "Alice");
    e.step(&ps, "A");
    e.step(&ps, "Bob");
    e.step(&ps, "B");
    assert_eq!(e.step(&ps, "0"), vec![Notice::InvalidWinner]);
    let mut e = MatchEntry::new(&ps);
    e.step(&ps, "2");
    e.step(&ps, "Alice");
    e.step(&ps, "A");
    e.step(&ps, "Bob");
    e.step(&ps, "B");
    assert_eq!(e.step(&ps, "3"), vec![Notice::InvalidWinner]);
}

#[test]
fn winner_answer_must_be_a_number() {
    // The entry does not take such an answer; the program checks it first.
    assert_eq!(mtg_fletch::text::parse_usize("Bob"), None);
    assert_eq!(mtg_fletch::text::parse_usize("-1"), None);
    assert_eq!(mtg_fletch::text::parse_usize(""), None);
}

#[test]
fn created_name_differs_from_all_names_after_lowercasing() {
    let mut ps = names(&["Alice", "Bob"]);
    let mut e = MatchEntry::new(&ps);
    e.step(&ps, "2");
    // A name equal to an existing one up to case is found, never created.
    assert_eq!(e.step(&ps, "ALICE"), vec![Notice::Matched("Alice".to_string())]);
    e.step(&ps, "Atraxa");
    assert_eq!(e.step(&ps, "Quinn"), vec![Notice::NoMatch("Quinn".to_string())]);
    assert_eq!(e.step(&ps, "y"), vec![Notice::CreatePlayer("Quinn".to_string())]);
    ps.push("Quinn".to_string());
    let lower: Vec<String> = ps.iter().map(|n| n.to_lowercase()).collect();
    for i in 0..lower.len() {
        for j in i + 1..lower.len() {
            assert_ne!(lower[i], lower[j]);
        }
    }
}

#[test]
fn finished_entry_ignores_answers() {
    let ps = names(&["Alice"]);
    let mut e = MatchEntry::new(&ps);
    e.step(&ps, "9");
    assert!(e.step(&ps, "2").is_empty());
    assert_eq!(e.prompt(), Prompt::Finished);
}
