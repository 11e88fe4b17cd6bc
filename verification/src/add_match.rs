//! Entering a match, one answer at a time.
//!
//! The program asks questions and hands each answer to [`MatchEntry::step`],
//! which decides what happens next: the next question, what to report, which
//! player to create, and finally the match to record together with the
//! rating updates to apply.

use vstd::prelude::*;
use vstd::string::StrSliceExecFns;
use crate::records::{MatchPlayer, MatchRecord, MatchView, SeatView};
use crate::search::{find_player, find_result};
use crate::text::{lowercase, parse_usize, parsed_usize, to_lowercase};

verus! {

/// The seats chosen so far for a match of `count` players: the players'
/// indices in the player list, and the seats (name and commander).
#[derive(Debug, Clone, PartialEq, Eq)]
pub struct Draft {
    pub count: usize,
    pub selected: Vec<usize>,
    pub seats: Vec<MatchPlayer>,
}

/// Model of a draft.
pub struct DraftView {
    pub count: nat,
    pub selected: Seq<usize>,
    pub seats: Seq<SeatView>,
}

impl View for Draft {
    type V = DraftView;

    open spec fn view(&self) -> DraftView {
        DraftView {
            count: self.count as nat,
            selected: self.selected@,
            seats: self.seats@.map_values(|p: MatchPlayer| p@),
        }
    }
}

/// Where the entry of a match stands: which answer it waits for.
pub enum Stage {
    /// Waits for the number of players.
    AwaitCount,
    /// Waits for the name of the next player.
    AwaitName(Draft),
    /// No player matched the typed name: waits for whether to create one.
    /// Also holds the player names that the search went through.
    AwaitCreate(Draft, String, Ghost<Seq<Seq<char>>>),
    /// A player was picked (index and name): waits for their commander.
    AwaitCommander(Draft, usize, String),
    /// All seats are filled: waits for the number of the winner.
    AwaitWinner(Draft),
    /// The entry is over, recorded or abandoned.
    Done,
}

/// Model of a stage.
pub enum StageView {
    AwaitCount,
    AwaitName(DraftView),
    AwaitCreate(DraftView, Seq<char>, Seq<Seq<char>>),
    AwaitCommander(DraftView, usize, Seq<char>),
    AwaitWinner(DraftView),
    Done,
}

impl View for Stage {
    type V = StageView;

    open spec fn view(&self) -> StageView {
        match self {
            Stage::AwaitCount => StageView::AwaitCount,
            Stage::AwaitName(d) => StageView::AwaitName(d@),
            Stage::AwaitCreate(d, n, seen) => StageView::AwaitCreate(d@, n@, seen@),
            Stage::AwaitCommander(d, i, n) => StageView::AwaitCommander(d@, *i, n@),
            Stage::AwaitWinner(d) => StageView::AwaitWinner(d@),
            Stage::Done => StageView::Done,
        }
    }
}

/// A recorded match and the rating updates it calls for: the winner is rated
/// as having beaten each loser in turn (against the loser's rating before
/// the match), and each loser as having lost to the winner (against the
/// winner's rating before the match).
#[derive(Debug, Clone, PartialEq, Eq)]
pub struct Outcome {
    pub record: MatchRecord,
    pub winner: usize,
    pub losers: Vec<usize>,
}

/// Model of an outcome.
pub struct OutcomeView {
    pub record: MatchView,
    pub winner: usize,
    pub losers: Seq<usize>,
}

impl View for Outcome {
    type V = OutcomeView;

    open spec fn view(&self) -> OutcomeView {
        OutcomeView { record: self.record@, winner: self.winner, losers: self.losers@ }
    }
}

/// What a step reports or asks the program to do, in order.
#[derive(Debug, Clone, PartialEq, Eq)]
pub enum Notice {
    /// The number of players is not 2, 3 or 4; the entry ends.
    InvalidPlayerCount,
    /// The typed name was matched to this player.
    Matched(String),
    /// No player matched this typed name.
    NoMatch(String),
    /// The player was not created; the entry ends.
    Cancelled,
    /// A new player with this name and default rating is to be added at the
    /// end of the player list.
    CreatePlayer(String),
    /// The player is already in this match; the entry ends.
    AlreadySelected,
    /// The winner number is out of range; the entry ends.
    InvalidWinner,
    /// The match is finished: record it and apply the rating updates.
    Recorded(Outcome),
}

/// Model of a notice.
pub enum NoticeView {
    InvalidPlayerCount,
    Matched(Seq<char>),
    NoMatch(Seq<char>),
    Cancelled,
    CreatePlayer(Seq<char>),
    AlreadySelected,
    InvalidWinner,
    Recorded(OutcomeView),
}

impl View for Notice {
    type V = NoticeView;

    open spec fn view(&self) -> NoticeView {
        match self {
            Notice::InvalidPlayerCount => NoticeView::InvalidPlayerCount,
            Notice::Matched(s) => NoticeView::Matched(s@),
            Notice::NoMatch(s) => NoticeView::NoMatch(s@),
            Notice::Cancelled => NoticeView::Cancelled,
            Notice::CreatePlayer(s) => NoticeView::CreatePlayer(s@),
            Notice::AlreadySelected => NoticeView::AlreadySelected,
            Notice::InvalidWinner => NoticeView::InvalidWinner,
            Notice::Recorded(o) => NoticeView::Recorded(o@),
        }
    }
}

/// Model of a list of notices.
pub open spec fn notices_view(ns: Seq<Notice>) -> Seq<NoticeView> {
    ns.map_values(|n: Notice| n@)
}

/// `s` without the occurrences of `w`, order kept.
pub open spec fn without(s: Seq<usize>, w: usize) -> Seq<usize>
    decreases s.len(),
{
    if s.len() == 0 {
        seq![]
    } else {
        without(s.drop_last(), w) + (if s.last() == w { seq![] } else { seq![s.last()] })
    }
}

/// The number of players asked for: the answer read as a number, 2 when it
/// is not one.
pub open spec fn count_answer(input: Seq<char>) -> nat {
    match parsed_usize(input) {
        Some(n) => n as nat,
        None => 2,
    }
}

/// Picking player `i` (called `name`) after reporting `first`: refused when
/// the player already has a seat.
pub open spec fn pick(d: DraftView, i: usize, name: Seq<char>, first: NoticeView) -> (StageView, Seq<NoticeView>) {
    if d.selected.contains(i) {
        (StageView::Done, seq![first, NoticeView::AlreadySelected])
    } else {
        (StageView::AwaitCommander(d, i, name), seq![first])
    }
}

/// One step of entering a match: from the stage `s`, the player names
/// `names` and the user's answer `input` to the next stage and the notices.
pub open spec fn step_spec(s: StageView, names: Seq<Seq<char>>, input: Seq<char>) -> (StageView, Seq<NoticeView>) {
    match s {
        StageView::AwaitCount => {
            let n = count_answer(input);
            if n < 2 || n > 4 {
                (StageView::Done, seq![NoticeView::InvalidPlayerCount])
            } else {
                (StageView::AwaitName(DraftView { count: n, selected: seq![], seats: seq![] }), seq![])
            }
        },
        StageView::AwaitName(d) => match find_result(names, input) {
            Some(i) => pick(d, i, names[i as int], NoticeView::Matched(names[i as int])),
            None => (StageView::AwaitCreate(d, input, names), seq![NoticeView::NoMatch(input)]),
        },
        StageView::AwaitCreate(d, name, _) => if lowercase(input) == seq!['y'] {
            pick(d, names.len() as usize, name, NoticeView::CreatePlayer(name))
        } else {
            (StageView::Done, seq![NoticeView::Cancelled])
        },
        StageView::AwaitCommander(d, i, name) => {
            let next = DraftView {
                count: d.count,
                selected: d.selected.push(i),
                seats: d.seats.push(SeatView { player: name, commander: input }),
            };
            if next.selected.len() < d.count {
                (StageView::AwaitName(next), seq![])
            } else {
                (StageView::AwaitWinner(next), seq![])
            }
        },
        StageView::AwaitWinner(d) => match parsed_usize(input) {
            // A winner answer that is not a number is left out by `step`'s
            // precondition.
            None => (StageView::Done, seq![]),
            Some(c) => if c == 0 || c > d.selected.len() {
                (StageView::Done, seq![NoticeView::InvalidWinner])
            } else {
                let w = d.selected[c - 1];
                (
                    StageView::Done,
                    seq![
                        NoticeView::Recorded(
                            OutcomeView {
                                record: MatchView { players: d.seats, winner: d.seats[c - 1].player },
                                winner: w,
                                losers: without(d.selected, w),
                            },
                        ),
                    ],
                )
            },
        },
        StageView::Done => (StageView::Done, seq![]),
    }
}

/// No player index occurs twice.
pub open spec fn no_repeats(s: Seq<usize>) -> bool {
    forall|a: int, b: int| 0 <= a < b < s.len() ==> #[trigger] s[a] != #[trigger] s[b]
}

/// A draft for 2 to 4 players, with distinct players and one seat each.
pub open spec fn draft_wf(d: DraftView) -> bool {
    &&& 2 <= d.count <= 4
    &&& d.selected.len() == d.seats.len()
    &&& d.selected.len() <= d.count
    &&& no_repeats(d.selected)
}

/// The invariant of match entry.
pub open spec fn stage_wf(s: StageView) -> bool {
    match s {
        StageView::AwaitName(d) => draft_wf(d) && d.selected.len() < d.count,
        StageView::AwaitCreate(d, _, _) => draft_wf(d) && d.selected.len() < d.count,
        StageView::AwaitCommander(d, i, _) => draft_wf(d) && d.selected.len() < d.count
            && !d.selected.contains(i),
        StageView::AwaitWinner(d) => draft_wf(d) && d.selected.len() == d.count,
        _ => true,
    }
}

fn contains_index(s: &Vec<usize>, i: usize) -> (r: bool)
    ensures
        r == s@.contains(i),
{
    let mut k: usize = 0;
    while k < s.len()
        invariant
            k <= s.len(),
            forall|j: int| 0 <= j < k ==> s@[j] != i,
        decreases s.len() - k,
    {
        if s[k] == i {
            return true;
        }
        k = k + 1;
    }
    false
}

fn without_exec(s: &Vec<usize>, w: usize) -> (r: Vec<usize>)
    ensures
        r@ == without(s@, w),
{
    let mut r: Vec<usize> = Vec::new();
    let mut k: usize = 0;
    while k < s.len()
        invariant
            k <= s.len(),
            r@ == without(s@.take(k as int), w),
        decreases s.len() - k,
    {
        assert(s@.take(k + 1).drop_last() =~= s@.take(k as int));
        if s[k] != w {
            r.push(s[k]);
        }
        assert(r@ =~= without(s@.take(k + 1), w));
        k = k + 1;
    }
    assert(s@.take(s.len() as int) =~= s@);
    r
}

fn pick_exec(d: Draft, i: usize, name: String, first: Notice) -> (r: (Stage, Vec<Notice>))
    ensures
        r.0@ == pick(d@, i, name@, first@).0,
        notices_view(r.1@) == pick(d@, i, name@, first@).1,
{
    if contains_index(&d.selected, i) {
        let notices = vec![first, Notice::AlreadySelected];
        assert(notices_view(notices@) =~= pick(d@, i, name@, first@).1);
        (Stage::Done, notices)
    } else {
        let ghost fv = first@;
        let notices = vec![first];
        assert(notices_view(notices@) =~= pick(d@, i, name@, fv).1);
        (Stage::AwaitCommander(d, i, name), notices)
    }
}

fn advance(stage: Stage, names: &Vec<String>, input: &str) -> (r: (Stage, Vec<Notice>))
    requires
        entry_wf(stage@),
    ensures
        r.0@ == step_spec(stage@, names.deep_view(), input@).0,
        entry_wf(r.0@),
        notices_view(r.1@) == step_spec(stage@, names.deep_view(), input@).1,
{
    let ghost expected = step_spec(stage@, names.deep_view(), input@);
    proof {
        lemma_step_keeps_wf(stage@, names.deep_view(), input@);
    }
    match stage {
        Stage::AwaitCount => {
            let n = match parse_usize(input) {
                Some(n) => n,
                None => 2,
            };
            if n < 2 || n > 4 {
                let notices = vec![Notice::InvalidPlayerCount];
                assert(notices_view(notices@) =~= expected.1);
                (Stage::Done, notices)
            } else {
                let d = Draft { count: n, selected: Vec::new(), seats: Vec::new() };
                assert(d@.seats =~= Seq::<SeatView>::empty());
                let notices: Vec<Notice> = Vec::new();
                assert(notices_view(notices@) =~= expected.1);
                (Stage::AwaitName(d), notices)
            }
        },
        Stage::AwaitName(d) => {
            match find_player(names, input) {
                Some(i) => {
                    let name = names[i].clone();
                    let shown = names[i].clone();
                    pick_exec(d, i, name, Notice::Matched(shown))
                },
                None => {
                    assert(unseen_name(names.deep_view(), input@));
                    let notices = vec![Notice::NoMatch(input.to_owned())];
                    assert(notices_view(notices@) =~= expected.1);
                    (Stage::AwaitCreate(d, input.to_owned(), Ghost(names.deep_view())), notices)
                },
            }
        },
        Stage::AwaitCreate(d, name, _) => {
            let answer = to_lowercase(input);
            let yes = answer.as_str().unicode_len() == 1 && answer.as_str().get_char(0) == 'y';
            if yes {
                assert(answer@ =~= seq!['y']);
                let shown = name.clone();
                pick_exec(d, names.len(), name, Notice::CreatePlayer(shown))
            } else {
                assert(answer@ != seq!['y']);
                let notices = vec![Notice::Cancelled];
                assert(notices_view(notices@) =~= expected.1);
                (Stage::Done, notices)
            }
        },
        Stage::AwaitCommander(d, i, name) => {
            let Draft { count, mut selected, mut seats } = d;
            let ghost old_seats = seats@;
            selected.push(i);
            seats.push(MatchPlayer { player: name, commander: input.to_owned() });
            let next = Draft { count, selected, seats };
            assert(next@.seats =~= old_seats.map_values(|p: MatchPlayer| p@).push(
                SeatView { player: name@, commander: input@ },
            ));
            let notices: Vec<Notice> = Vec::new();
            assert(notices_view(notices@) =~= expected.1);
            if next.selected.len() < count {
                (Stage::AwaitName(next), notices)
            } else {
                (Stage::AwaitWinner(next), notices)
            }
        },
        Stage::AwaitWinner(d) => {
            match parse_usize(input) {
                None => {
                    let notices: Vec<Notice> = Vec::new();
                    assert(notices_view(notices@) =~= expected.1);
                    (Stage::Done, notices)
                },
                Some(c) => {
                    if c == 0 || c > d.selected.len() {
                        let notices = vec![Notice::InvalidWinner];
                        assert(notices_view(notices@) =~= expected.1);
                        (Stage::Done, notices)
                    } else {
                        let ghost dv = d@;
                        let Draft { count, selected, seats } = d;
                        let w = selected[c - 1];
                        let winner_name = seats[c - 1].player.clone();
                        let losers = without_exec(&selected, w);
                        let outcome = Outcome {
                            record: MatchRecord { players: seats, winner: winner_name },
                            winner: w,
                            losers,
                        };
                        assert(outcome@.record.players == dv.seats);
                        let notices = vec![Notice::Recorded(outcome)];
                        assert(notices_view(notices@) =~= expected.1);
                        (Stage::Done, notices)
                    }
                },
            }
        },
        Stage::Done => {
            let notices: Vec<Notice> = Vec::new();
            assert(notices_view(notices@) =~= expected.1);
            (Stage::Done, notices)
        },
    }
}

/// Every step keeps the invariant of match entry: 2 to 4 players, each
/// with one seat, none twice.
pub proof fn lemma_step_keeps_wf(s: StageView, names: Seq<Seq<char>>, input: Seq<char>)
    requires
        stage_wf(s),
    ensures
        stage_wf(step_spec(s, names, input).0),
{
    match s {
        StageView::AwaitCommander(d, i, name) => {
            let sel = d.selected.push(i);
            assert forall|a: int, b: int| 0 <= a < b < sel.len() implies #[trigger] sel[a]
                != #[trigger] sel[b] by {
                if b == d.selected.len() {
                    // `i` had no seat yet, and `sel[a]` is one of the earlier seats.
                    assert(sel[a] == d.selected[a]);
                }
            }
        },
        _ => {},
    }
}

/// A recorded match has the 2 to 4 seats asked for; its winner is the
/// player of the chosen seat; every other player of the match is rated as
/// a loser exactly once, in seat order, and the winner is not.
pub proof fn lemma_recorded_match(s: StageView, names: Seq<Seq<char>>, input: Seq<char>)
    requires
        stage_wf(s),
        step_spec(s, names, input).1.len() > 0,
        step_spec(s, names, input).1[0] is Recorded,
    ensures
        ({
            let o = step_spec(s, names, input).1[0]->Recorded_0;
            let d = s->AwaitWinner_0;
            &&& s is AwaitWinner
            &&& 2 <= o.record.players.len() <= 4
            &&& o.record.players == d.seats
            &&& exists|c: int|
                0 <= c < d.selected.len() && d.selected[c] == o.winner && o.record.winner
                    == d.seats[c].player
            &&& o.losers.len() == d.selected.len() - 1
            &&& !o.losers.contains(o.winner)
            &&& forall|k: int|
                0 <= k < d.selected.len() && d.selected[k] != o.winner ==> o.losers.contains(
                    #[trigger] d.selected[k],
                )
        }),
{
    let d = s->AwaitWinner_0;
    let c = parsed_usize(input)->Some_0;
    let w = d.selected[c - 1];
    lemma_without(d.selected, w);
    assert(d.selected.contains(w));
}

proof fn lemma_without(s: Seq<usize>, w: usize)
    requires
        no_repeats(s),
    ensures
        s.contains(w) ==> without(s, w).len() == s.len() - 1,
        !s.contains(w) ==> without(s, w).len() == s.len(),
        !without(s, w).contains(w),
        forall|k: int| 0 <= k < s.len() && s[k] != w ==> without(s, w).contains(#[trigger] s[k]),
    decreases s.len(),
{
    if s.len() > 0 {
        let p = s.drop_last();
        assert(no_repeats(p));
        lemma_without(p, w);
        let r = without(s, w);
        let rp = without(p, w);
        if s.last() == w {
            assert(r =~= rp);
            assert(!p.contains(w));
        } else {
            assert(r =~= rp.push(s.last()));
            if s.contains(w) {
                let j = choose|j: int| 0 <= j < s.len() && s[j] == w;
                assert(p[j] == w);
            }
            if p.contains(w) {
                let j = choose|j: int| 0 <= j < p.len() && p[j] == w;
                assert(s[j] == w);
            }
        }
        assert forall|k: int| 0 <= k < s.len() && s[k] != w implies r.contains(#[trigger] s[k]) by {
            if k < s.len() - 1 {
                assert(s[k] == p[k]);
                assert(rp.contains(p[k]));
                let j = choose|j: int| 0 <= j < rp.len() && rp[j] == p[k];
                assert(r[j] == rp[j]);
            } else {
                assert(r[r.len() - 1] == s[k]);
            }
        }
        if r.contains(w) {
            let j = choose|j: int| 0 <= j < r.len() && r[j] == w;
            if j < rp.len() {
                assert(rp[j] == w);
            }
        }
    }
}

/// The question to put to the user next.
#[derive(Debug, Clone, PartialEq, Eq)]
pub enum Prompt {
    /// How many players (2 to 4).
    PlayerCount,
    /// The name of the player for this seat number (counted from 1).
    PlayerName(usize),
    /// Whether to create a new player.
    CreatePlayer,
    /// The commander or deck name of the player just picked.
    Commander,
    /// Who won: the players of the seats, to be numbered from 1.
    Winner(Vec<String>),
    /// Nothing more to ask.
    Finished,
}

/// `p` is the question that stage `s` waits for an answer to.
pub open spec fn asks(s: StageView, p: Prompt) -> bool {
    match s {
        StageView::AwaitCount => p is PlayerCount,
        StageView::AwaitName(d) => p == Prompt::PlayerName((d.selected.len() + 1) as usize),
        StageView::AwaitCreate(_, _, _) => p is CreatePlayer,
        StageView::AwaitCommander(_, _, _) => p is Commander,
        StageView::AwaitWinner(d) => p matches Prompt::Winner(names) && names@.map_values(
            |n: String| n@,
        ) == d.seats.map_values(|s: SeatView| s.player),
        StageView::Done => p is Finished,
    }
}

/// The entry of one match, from the number of players to the recorded result.
pub struct MatchEntry {
    stage: Stage,
    /// The player names when the entry began.
    start: Ghost<Seq<Seq<char>>>,
    /// The names the player list should hold now: those at the start plus
    /// the players created since.
    current: Ghost<Seq<Seq<char>>>,
    /// Every step so far was handed exactly `current`.
    in_step: Ghost<bool>,
}

impl View for MatchEntry {
    type V = StageView;

    closed spec fn view(&self) -> StageView {
        self.stage@
    }
}

impl MatchEntry {
    #[verifier::type_invariant]
    spec fn well_formed(self) -> bool {
        &&& entry_wf(self.stage@)
        &&& self.in_step@ && lower_distinct(self.start@) ==> lower_distinct(self.current@)
        &&& self.in_step@ ==> (self.stage@ matches StageView::AwaitCreate(_, _, seen) ==> seen
            == self.current@)
    }

    /// The player names when the entry began.
    pub closed spec fn names_at_start(self) -> Seq<Seq<char>> {
        self.start@
    }

    /// The names the player list holds now if the program did as told: the
    /// names at the start plus every player created since, in order.
    pub closed spec fn names_now(self) -> Seq<Seq<char>> {
        self.current@
    }

    /// Every step so far was handed the player list as it stood: the
    /// previous list plus the players created.
    pub closed spec fn names_kept(self) -> bool {
        self.in_step@
    }

    /// A new entry, waiting for the number of players, for the player list
    /// `names`.
    pub fn new(names: &Vec<String>) -> (r: MatchEntry)
        ensures
            r@ == StageView::AwaitCount,
            r.names_at_start() == names.deep_view(),
            r.names_now() == names.deep_view(),
            r.names_kept(),
    {
        MatchEntry {
            stage: Stage::AwaitCount,
            start: Ghost(names.deep_view()),
            current: Ghost(names.deep_view()),
            in_step: Ghost(true),
        }
    }

    /// Hands the answer to the current question to the entry, given the
    /// names of all players in the list.  The entry moves on as
    /// `step_spec` says, and the returned notices say what to report and do.
    ///
    /// A winner answer that is not a number is not accepted (the program
    /// stops there); test it first with `parse_usize`.
    ///
    /// A name is only reported as unmatched, and a player only created, when
    /// no listed name lowercases to it; so a list of names that differ after
    /// lowercasing still does after the new player is added.
    pub fn step(&mut self, names: &Vec<String>, input: &str) -> (notices: Vec<Notice>)
        requires
            old(self)@ is AwaitWinner ==> parsed_usize(input@) is Some,
        ensures
            final(self)@ == step_spec(old(self)@, names.deep_view(), input@).0,
            notices_view(notices@) == step_spec(old(self)@, names.deep_view(), input@).1,
            entry_wf(old(self)@),
            entry_wf(final(self)@),
            forall|k: int|
                0 <= k < notices@.len() ==> (#[trigger] notices_view(notices@)[k] matches NoticeView::NoMatch(q)
                    ==> unseen_name(names.deep_view(), q)),
            old(self)@ matches StageView::AwaitCreate(_, _, seen) ==> forall|k: int|
                0 <= k < notices@.len() ==> (#[trigger] notices_view(notices@)[k] matches NoticeView::CreatePlayer(n)
                    ==> unseen_name(seen, n)),
            old(self)@ matches StageView::AwaitCreate(_, _, seen) ==> (seen == names.deep_view()
                && lower_distinct(seen) ==> forall|k: int|
                0 <= k < notices@.len() ==> (#[trigger] notices_view(notices@)[k] matches NoticeView::CreatePlayer(n)
                    ==> lower_distinct(names.deep_view().push(n)))),
            final(self).names_at_start() == old(self).names_at_start(),
            final(self).names_now() == with_created(names.deep_view(), notices_view(notices@)),
            final(self).names_kept() == (old(self).names_kept() && names.deep_view()
                == old(self).names_now()),
            final(self).names_kept() && lower_distinct(final(self).names_at_start()) ==> lower_distinct(
                final(self).names_now(),
            ),
    {
        proof {
            use_type_invariant(&*self);
        }
        let ghost before = self.stage@;
        let ghost start = self.start@;
        let ghost kept = self.in_step@ && names.deep_view() == self.current@;
        let ghost old_current = self.current@;
        let mut stage = Stage::Done;
        std::mem::swap(&mut stage, &mut self.stage);
        let (next, notices) = advance(stage, names, input);
        let ghost now = with_created(names.deep_view(), notices_view(notices@));
        proof {
            lemma_step_notices(before, names.deep_view(), input@);
            lemma_step_creates(before, names.deep_view(), input@);
            if kept && lower_distinct(start) {
                match before {
                    StageView::AwaitCreate(_, n, seen) => {
                        if now != names.deep_view() {
                            lemma_new_name_keeps_distinct(names.deep_view(), n);
                        }
                    },
                    _ => {},
                }
            }
        }
        *self = MatchEntry { stage: next, start: Ghost(start), current: Ghost(now), in_step: Ghost(kept) };
        notices
    }

    /// The question the entry waits for.
    pub fn prompt(&self) -> (p: Prompt)
        ensures
            asks(self@, p),
    {
        match &self.stage {
            Stage::AwaitCount => Prompt::PlayerCount,
            Stage::AwaitName(d) => {
                proof {
                    use_type_invariant(self);
                }
                Prompt::PlayerName(d.selected.len() + 1)
            },
            Stage::AwaitCreate(_, _, _) => Prompt::CreatePlayer,
            Stage::AwaitCommander(_, _, _) => Prompt::Commander,
            Stage::AwaitWinner(d) => {
                let mut names: Vec<String> = Vec::new();
                let mut k: usize = 0;
                while k < d.seats.len()
                    invariant
                        k <= d.seats@.len(),
                        names@.len() == k,
                        forall|j: int| 0 <= j < k ==> (#[trigger] names@[j])@ == d.seats@[j].player@,
                    decreases d.seats@.len() - k,
                {
                    names.push(d.seats[k].player.clone());
                    k = k + 1;
                }
                assert(names@.map_values(|n: String| n@) =~= d@.seats.map_values(
                    |s: SeatView| s.player,
                ));
                Prompt::Winner(names)
            },
            Stage::Done => Prompt::Finished,
        }
    }
}

/// No name in `names` lowercases to the same text as `q`.
pub open spec fn unseen_name(names: Seq<Seq<char>>, q: Seq<char>) -> bool {
    forall|i: int| 0 <= i < names.len() ==> lowercase(#[trigger] names[i]) != lowercase(q)
}

/// No two names in the list lowercase to the same text.
pub open spec fn lower_distinct(names: Seq<Seq<char>>) -> bool {
    forall|i: int, j: int| 0 <= i < j < names.len() ==> lowercase(#[trigger] names[i]) != lowercase(#[trigger] names[j])
}

/// The invariant of match entry, with what the search found: a name waits
/// for creation only when no name that was searched lowercases to it.
pub open spec fn entry_wf(s: StageView) -> bool {
    &&& stage_wf(s)
    &&& s matches StageView::AwaitCreate(_, name, seen) ==> unseen_name(seen, name)
}

/// Adding a name that no listed name lowercases to keeps the names distinct
/// after lowercasing.
pub proof fn lemma_new_name_keeps_distinct(names: Seq<Seq<char>>, n: Seq<char>)
    requires
        lower_distinct(names),
        unseen_name(names, n),
    ensures
        lower_distinct(names.push(n)),
{
    let all = names.push(n);
    assert forall|i: int, j: int| 0 <= i < j < all.len() implies lowercase(#[trigger] all[i])
        != lowercase(#[trigger] all[j]) by {
        assert(all[i] == names[i]);
        if j < names.len() {
            assert(all[j] == names[j]);
        }
    }
}

proof fn lemma_step_notices(s: StageView, names: Seq<Seq<char>>, input: Seq<char>)
    requires
        entry_wf(s),
        entry_wf(step_spec(s, names, input).0),
    ensures
        ({
            let ns = step_spec(s, names, input).1;
            &&& forall|k: int|
                0 <= k < ns.len() ==> (#[trigger] ns[k] matches NoticeView::NoMatch(q) ==> unseen_name(names, q))
            &&& s matches StageView::AwaitCreate(_, _, seen) ==> forall|k: int|
                0 <= k < ns.len() ==> (#[trigger] ns[k] matches NoticeView::CreatePlayer(n) ==> unseen_name(seen, n))
            &&& s matches StageView::AwaitCreate(_, _, seen) ==> (seen == names && lower_distinct(seen)
                ==> forall|k: int|
                0 <= k < ns.len() ==> (#[trigger] ns[k] matches NoticeView::CreatePlayer(n)
                    ==> lower_distinct(names.push(n))))
        }),
{
    let ns = step_spec(s, names, input).1;
    match s {
        StageView::AwaitCreate(d, name, seen) => {
            if seen == names && lower_distinct(seen) {
                lemma_new_name_keeps_distinct(names, name);
            }
            assert forall|k: int| 0 <= k < ns.len() implies !(#[trigger] ns[k] is NoMatch) by {}
        },
        StageView::AwaitName(d) => {
            assert forall|k: int| 0 <= k < ns.len() && (#[trigger] ns[k] is NoMatch) implies
                ns[k]->NoMatch_0 == input && unseen_name(names, input) by {
                if find_result(names, input) is Some {
                    let i = find_result(names, input)->Some_0;
                    assert(!(ns[k] is NoMatch));
                }
            }
        },
        _ => {},
    }
}

/// `names` with the names of the players that `ns` creates added, in order.
pub open spec fn with_created(names: Seq<Seq<char>>, ns: Seq<NoticeView>) -> Seq<Seq<char>>
    decreases ns.len(),
{
    if ns.len() == 0 {
        names
    } else {
        let before = with_created(names, ns.drop_last());
        match ns.last() {
            NoticeView::CreatePlayer(n) => before.push(n),
            _ => before,
        }
    }
}

/// A step creates at most one player: the one waiting for creation.
proof fn lemma_step_creates(s: StageView, names: Seq<Seq<char>>, input: Seq<char>)
    ensures
        ({
            let ns = step_spec(s, names, input).1;
            let l = with_created(names, ns);
            &&& l == names || (s matches StageView::AwaitCreate(_, n, _) && l == names.push(n))
            &&& step_spec(s, names, input).0 is AwaitCreate ==> l == names
        }),
{
    let ns = step_spec(s, names, input).1;
    reveal_with_fuel(with_created, 3);
    assert(ns.len() <= 2);
    if ns.len() == 2 {
        assert(ns.drop_last().drop_last() =~= Seq::<NoticeView>::empty());
    } else if ns.len() == 1 {
        assert(ns.drop_last() =~= Seq::<NoticeView>::empty());
    }
}

/// The player count: an answer of 2, 3 or 4 (or one that is not a number,
/// read as 2) starts a match of that many players with no seats yet; any
/// other number ends the entry with `InvalidPlayerCount`.
pub proof fn lemma_count_step(names: Seq<Seq<char>>, input: Seq<char>)
    ensures
        ({
            let (next, ns) = step_spec(StageView::AwaitCount, names, input);
            let n: nat = match parsed_usize(input) {
                Some(v) => v as nat,
                None => 2,
            };
            &&& 2 <= n <= 4 ==> (ns.len() == 0 && (next matches StageView::AwaitName(d) && d.count == n
                && d.selected.len() == 0 && d.seats.len() == 0))
            &&& !(2 <= n <= 4) ==> next is Done && ns.len() == 1 && ns[0] is InvalidPlayerCount
        }),
{
}

/// The player name: when the search finds player `i`, it is reported as
/// matched and, unless already seated, waits for their commander; when it
/// finds nobody, the typed name is reported and creation is offered.
pub proof fn lemma_name_step(d: DraftView, names: Seq<Seq<char>>, input: Seq<char>)
    ensures
        ({
            let (next, ns) = step_spec(StageView::AwaitName(d), names, input);
            &&& find_result(names, input) matches Some(i) ==> {
                &&& ns.len() >= 1
                &&& ns[0] == NoticeView::Matched(names[i as int])
                &&& d.selected.contains(i) ==> next is Done && ns.len() == 2 && ns[1] is AlreadySelected
                &&& !d.selected.contains(i) ==> ns.len() == 1 && next == StageView::AwaitCommander(
                    d,
                    i,
                    names[i as int],
                )
            }
            &&& find_result(names, input) is None ==> ns.len() == 1 && ns[0] == NoticeView::NoMatch(
                input,
            ) && next == StageView::AwaitCreate(d, input, names)
        }),
{
}

/// Creating a player: only the answer that lowercases to exactly "y"
/// creates the player with the typed name, who gets the next index in the
/// list; any other answer cancels and ends the entry.
pub proof fn lemma_create_needs_yes(
    d: DraftView,
    name: Seq<char>,
    seen: Seq<Seq<char>>,
    names: Seq<Seq<char>>,
    input: Seq<char>,
)
    ensures
        ({
            let (next, ns) = step_spec(StageView::AwaitCreate(d, name, seen), names, input);
            &&& lowercase(input) != seq!['y'] ==> next is Done && ns.len() == 1 && ns[0] is Cancelled
            &&& lowercase(input) == seq!['y'] ==> {
                &&& ns.len() >= 1
                &&& ns[0] == NoticeView::CreatePlayer(name)
                &&& !d.selected.contains(names.len() as usize) ==> ns.len() == 1 && next
                    == StageView::AwaitCommander(d, names.len() as usize, name)
            }
        }),
{
}

/// A player is created only from the create-player stage, on an answer
/// that lowercases to "y", and it is the player whose name was typed.
pub proof fn lemma_created_only_on_yes(s: StageView, names: Seq<Seq<char>>, input: Seq<char>)
    ensures
        forall|k: int|
            0 <= k < step_spec(s, names, input).1.len() && #[trigger] step_spec(s, names, input).1[k]
                is CreatePlayer ==> (lowercase(input) == seq!['y'] && (s matches StageView::AwaitCreate(
                _,
                name,
                _,
            ) && step_spec(s, names, input).1[k] == NoticeView::CreatePlayer(name))),
{
}

/// The commander: the picked player takes the next seat with the typed
/// commander; the entry asks for another name until all seats are filled,
/// then for the winner.
pub proof fn lemma_commander_step(d: DraftView, i: usize, name: Seq<char>, names: Seq<Seq<char>>, input: Seq<char>)
    ensures
        ({
            let (next, ns) = step_spec(StageView::AwaitCommander(d, i, name), names, input);
            let seats = d.seats.push(SeatView { player: name, commander: input });
            &&& ns.len() == 0
            &&& d.selected.len() + 1 < d.count ==> (next matches StageView::AwaitName(e) && e.count
                == d.count && e.selected == d.selected.push(i) && e.seats == seats)
            &&& d.selected.len() + 1 >= d.count ==> (next matches StageView::AwaitWinner(e) && e.count
                == d.count && e.selected == d.selected.push(i) && e.seats == seats)
        }),
{
}

/// The winner: answer `c` between 1 and the number of seats records the
/// match with the seats as entered, the player of seat `c` as its winner,
/// and every other seated player, once each and in seat order, as a loser;
/// any other number ends the entry with `InvalidWinner`.
pub proof fn lemma_winner_is_chosen_seat(d: DraftView, names: Seq<Seq<char>>, input: Seq<char>, c: usize)
    requires
        stage_wf(StageView::AwaitWinner(d)),
        parsed_usize(input) == Some(c),
    ensures
        ({
            let (next, ns) = step_spec(StageView::AwaitWinner(d), names, input);
            &&& next is Done
            &&& ns.len() == 1
            &&& (c == 0 || c > d.selected.len()) ==> ns[0] is InvalidWinner
            &&& 1 <= c <= d.selected.len() ==> (ns[0] matches NoticeView::Recorded(o) && {
                &&& o.winner == d.selected[c - 1]
                &&& o.record.winner == d.seats[c - 1].player
                &&& o.record.players == d.seats
                &&& o.losers.len() == d.selected.len() - 1
                &&& !o.losers.contains(o.winner)
                &&& forall|k: int|
                    0 <= k < d.selected.len() && k != c - 1 ==> o.losers.contains(
                        #[trigger] d.selected[k],
                    )
                &&& forall|a: int, b: int|
                    0 <= a < b < o.losers.len() ==> exists|ka: int, kb: int|
                        0 <= ka < kb < d.selected.len() && d.selected[ka] == #[trigger] o.losers[a]
                            && d.selected[kb] == #[trigger] o.losers[b]
            })
        }),
{
    if 1 <= c <= d.selected.len() {
        let w = d.selected[c - 1];
        lemma_without(d.selected, w);
        lemma_without_in_order(d.selected, w);
        assert forall|k: int| 0 <= k < d.selected.len() && k != c - 1 implies #[trigger] d.selected[k]
            != w by {
            if k < c - 1 {
                assert(d.selected[k] != d.selected[c - 1]);
            } else {
                assert(d.selected[c - 1] != d.selected[k]);
            }
        }
    }
}

/// The elements of `without(s, w)` come in the order they have in `s`.
proof fn lemma_without_in_order(s: Seq<usize>, w: usize)
    ensures
        forall|a: int, b: int|
            0 <= a < b < without(s, w).len() ==> exists|ka: int, kb: int|
                0 <= ka < kb < s.len() && s[ka] == #[trigger] without(s, w)[a] && s[kb]
                    == #[trigger] without(s, w)[b],
        forall|a: int|
            0 <= a < without(s, w).len() ==> exists|ka: int| 0 <= ka < s.len() && s[ka] == #[trigger] without(s, w)[a],
    decreases s.len(),
{
    if s.len() > 0 {
        let p = s.drop_last();
        lemma_without_in_order(p, w);
        let r = without(s, w);
        let rp = without(p, w);
        if s.last() == w {
            assert(r =~= rp);
        } else {
            assert(r =~= rp.push(s.last()));
        }
        assert forall|a: int| 0 <= a < r.len() implies exists|ka: int| 0 <= ka < s.len() && s[ka] == #[trigger] r[a] by {
            if a < rp.len() {
                assert(r[a] == rp[a]);
                let ka = choose|ka: int| 0 <= ka < p.len() && p[ka] == #[trigger] rp[a];
                assert(s[ka] == p[ka]);
            } else {
                assert(r[a] == s[s.len() - 1]);
            }
        }
        assert forall|a: int, b: int| 0 <= a < b < r.len() implies exists|ka: int, kb: int|
            0 <= ka < kb < s.len() && s[ka] == #[trigger] r[a] && s[kb] == #[trigger] r[b] by {
            if b < rp.len() {
                assert(r[a] == rp[a] && r[b] == rp[b]);
                let (ka, kb) = choose|ka: int, kb: int|
                    0 <= ka < kb < p.len() && p[ka] == #[trigger] rp[a] && p[kb] == #[trigger] rp[b];
                assert(s[ka] == p[ka] && s[kb] == p[kb]);
            } else {
                assert(r[a] == rp[a]);
                let ka = choose|ka: int| 0 <= ka < p.len() && p[ka] == #[trigger] rp[a];
                assert(s[ka] == p[ka]);
                assert(r[b] == s[s.len() - 1]);
            }
        }
    }
}

/// A finished entry stays finished and reports nothing.
pub proof fn lemma_done_stays_done(names: Seq<Seq<char>>, input: Seq<char>)
    ensures
        step_spec(StageView::Done, names, input).0 is Done,
        step_spec(StageView::Done, names, input).1.len() == 0,
{
}

/// The question asked at each stage: the count first; the name for seat
/// number (seats filled + 1); whether to create; the commander; the winner
/// among the seated players, listed in seat order; nothing once finished.
pub proof fn lemma_prompt_meaning(s: StageView, p: Prompt)
    requires
        asks(s, p),
    ensures
        s is AwaitCount ==> p is PlayerCount,
        s matches StageView::AwaitName(d) ==> p == Prompt::PlayerName((d.selected.len() + 1) as usize),
        s is AwaitCreate ==> p is CreatePlayer,
        s is AwaitCommander ==> p is Commander,
        s matches StageView::AwaitWinner(d) ==> (p matches Prompt::Winner(names) && names@.len()
            == d.seats.len() && forall|k: int| 0 <= k < d.seats.len() ==> (#[trigger] names@[k])@ == d.seats[k].player),
        s is Done ==> p is Finished,
{
    match s {
        StageView::AwaitWinner(d) => {
            let names = p->Winner_0;
            let shown = names@.map_values(|n: String| n@);
            let wanted = d.seats.map_values(|s: SeatView| s.player);
            assert(shown == wanted);
            assert(shown.len() == names@.len());
            assert forall|k: int| 0 <= k < d.seats.len() implies (#[trigger] names@[k])@ == d.seats[k].player by {
                assert(shown[k] == names@[k]@);
                assert(wanted[k] == d.seats[k].player);
            }
        },
        _ => {},
    }
}

} // verus!
