use mtg_fletch::records::{MatchPlayer, MatchRecord};
use mtg_fletch::stats::{
    commander_winrates, player_commanders, search_player_results, CommanderStats,
};

fn seat(p: &str, c: &str) -> MatchPlayer {
    MatchPlayer { player: p.to_string(), commander: c.to_string() }
}

fn game(seats: Vec<MatchPlayer>, winner: &str) -> MatchRecord {
    MatchRecord { players: seats, winner: winner.to_string() }
}

fn sample() -> Vec<MatchRecord> {
    vec![
        game(vec![seat("Alice", "Atraxa"), seat("Bob", "Krenko")], "Alice"),
        game(vec![seat("Alice", "Atraxa"), seat("Bob", "Krenko"), seat("Cleo", "Edgar")], "Bob"),
        game(vec![seat("Alice", "Omnath"), seat("Cleo", "Edgar")], "Alice"),
    ]
}

fn rate(s: &CommanderStats) -> (u32, u32) {
    (s.wins, s.games)
}

#[test]
fn commander_winrates_counts_each_pair() {
    let table = commander_winrates(&sample()).unwrap();
    assert_eq!(table.len(), 4);
    let find = |p: &str, c: &str| {
        table.iter().find(|e| e.player == p && e.commander == c).map(|e| rate(&e.stats))
    };
    assert_eq!(find("Alice", "Atraxa"), Some((1, 2)));
    assert_eq!(find("Bob", "Krenko"), Some((1, 2)));
    assert_eq!(find("Cleo", "Edgar"), Some((0, 2)));
    assert_eq!(find("Alice", "Omnath"), Some((1, 1)));
}

#[test]
fn commander_winrates_sorted_by_rate() {
    let table = commander_winrates(&sample()).unwrap();
    assert_eq!(table[0].commander, "Omnath");
    assert_eq!(table[3].commander, "Edgar");
    for w in table.windows(2) {
        let (a, b) = (&w[0].stats, &w[1].stats);
        assert!(a.wins as u64 * b.games as u64 >= b.wins as u64 * a.games as u64);
    }
}

#[test]
fn commander_winrates_of_no_matches_is_empty() {
    assert!(commander_winrates(&vec![]).unwrap().is_empty());
}

#[test]
fn player_commanders_only_that_player() {
    let mine = player_commanders(&sample(), &"Alice".to_string()).unwrap();
    assert_eq!(mine.len(), 2);
    assert_eq!(mine[0].commander, "Omnath");
    assert_eq!(rate(&mine[0].stats), (1, 1));
    assert_eq!(mine[1].commander, "Atraxa");
    assert_eq!(rate(&mine[1].stats), (1, 2));
    assert!(player_commanders(&sample(), &"Dora".to_string()).unwrap().is_empty());
}

#[test]
fn winner_names_are_matched_exactly_for_stats() {
    let ms = vec![game(vec![seat("alice", "Atraxa"), seat("Bob", "Krenko")], "Alice")];
    let table = commander_winrates(&ms).unwrap();
    assert!(table.iter().all(|e| e.stats.wins == 0 && e.stats.games == 1));
}

#[test]
fn search_player_results_counts_wins_and_losses() {
    let r = search_player_results(&sample(), "alice").unwrap();
    assert_eq!((r.wins, r.losses, r.total), (2, 1, 3));
    let r = search_player_results(&sample(), "CLEO").unwrap();
    assert_eq!((r.wins, r.losses), (0, 2));
}

#[test]
fn search_player_results_unknown_player() {
    assert!(search_player_results(&sample(), "Dora").is_none());
}

#[test]
fn default_stats_are_zero() {
    let s = CommanderStats::default();
    assert_eq!((s.games, s.wins), (0, 0));
}

#[test]
fn wins_never_exceed_games() {
    for e in commander_winrates(&sample()).unwrap() {
        assert!(e.stats.wins <= e.stats.games);
    }
}

#[test]
fn player_table_agrees_with_overall_table() {
    let all = commander_winrates(&sample()).unwrap();
    let mine = player_commanders(&sample(), &"Bob".to_string()).unwrap();
    assert_eq!(mine.len(), all.iter().filter(|e| e.player == "Bob").count());
    for e in &mine {
        assert!(all.contains(e));
    }
}
