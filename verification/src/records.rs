//! Recorded matches: who played which commander, and who won.

use vstd::prelude::*;

verus! {

/// One seat at a match: a player and the commander (deck) they played.
#[derive(Debug, Clone, PartialEq, Eq)]
pub struct MatchPlayer {
    pub player: String,
    pub commander: String,
}

/// A finished match: its seats in the order players were entered, and the
/// name of the winner.
#[derive(Debug, Clone, PartialEq, Eq)]
pub struct MatchRecord {
    pub players: Vec<MatchPlayer>,
    pub winner: String,
}

/// Model of a seat.
pub struct SeatView {
    pub player: Seq<char>,
    pub commander: Seq<char>,
}

/// Model of a match.
pub struct MatchView {
    pub players: Seq<SeatView>,
    pub winner: Seq<char>,
}

impl View for MatchPlayer {
    type V = SeatView;

    open spec fn view(&self) -> SeatView {
        SeatView { player: self.player@, commander: self.commander@ }
    }
}

impl View for MatchRecord {
    type V = MatchView;

    open spec fn view(&self) -> MatchView {
        MatchView { players: self.players@.map_values(|p: MatchPlayer| p@), winner: self.winner@ }
    }
}

/// Model of a list of matches.
pub open spec fn matches_view(ms: Seq<MatchRecord>) -> Seq<MatchView> {
    ms.map_values(|m: MatchRecord| m@)
}

} // verus!
