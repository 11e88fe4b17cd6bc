//! Commander statistics: games played and won per player and commander.

use vstd::prelude::*;
use crate::records::{MatchRecord, MatchView, SeatView, matches_view};
use crate::text::{ascii_case_insensitive_eq, eq_ignore_ascii_case};

verus! {

/// Games played and won with one commander.
#[derive(Debug, Clone, PartialEq, Eq)]
pub struct CommanderStats {
    pub games: u32,
    pub wins: u32,
}

impl Default for CommanderStats {
    fn default() -> (r: CommanderStats)
        ensures
            r.games == 0,
            r.wins == 0,
    {
        CommanderStats { games: 0, wins: 0 }
    }
}

/// The statistics of one player with one commander.
#[derive(Debug, Clone, PartialEq, Eq)]
pub struct CommanderEntry {
    pub player: String,
    pub commander: String,
    pub stats: CommanderStats,
}

/// One seat of a match as it counts for statistics: the player, the
/// commander, and whether the player won the match.
pub open spec fn seat_outcome(s: SeatView, winner: Seq<char>) -> (Seq<char>, Seq<char>, bool) {
    (s.player, s.commander, s.player == winner)
}

/// The seats of one match, in order.
pub open spec fn match_outcomes(m: MatchView) -> Seq<(Seq<char>, Seq<char>, bool)> {
    m.players.map_values(|s: SeatView| seat_outcome(s, m.winner))
}

/// The seats of all matches, match after match.
pub open spec fn all_outcomes(ms: Seq<MatchView>) -> Seq<(Seq<char>, Seq<char>, bool)>
    decreases ms.len(),
{
    if ms.len() == 0 {
        seq![]
    } else {
        all_outcomes(ms.drop_last()) + match_outcomes(ms.last())
    }
}

/// Number of seats in `es` where `player` played `commander`.
pub open spec fn games_played(es: Seq<(Seq<char>, Seq<char>, bool)>, player: Seq<char>, commander: Seq<char>) -> nat
    decreases es.len(),
{
    if es.len() == 0 {
        0
    } else {
        games_played(es.drop_last(), player, commander) + (if es.last().0 == player && es.last().1
            == commander {
            1nat
        } else {
            0nat
        })
    }
}

/// Number of those seats where the player also won.
pub open spec fn games_won(es: Seq<(Seq<char>, Seq<char>, bool)>, player: Seq<char>, commander: Seq<char>) -> nat
    decreases es.len(),
{
    if es.len() == 0 {
        0
    } else {
        games_won(es.drop_last(), player, commander) + (if es.last().0 == player && es.last().1
            == commander && es.last().2 {
            1nat
        } else {
            0nat
        })
    }
}

/// Whether a player's seats are counted: all of them, or only those of `name`.
pub open spec fn counted(only_one: bool, name: Seq<char>, player: Seq<char>) -> bool {
    !only_one || player == name
}

/// `stats` is the tally of the seats `es`: one entry per (player, commander)
/// pair that occurs, with the numbers of games played and won.
pub open spec fn is_tally(
    stats: Seq<CommanderEntry>,
    es: Seq<(Seq<char>, Seq<char>, bool)>,
    only_one: bool,
    name: Seq<char>,
) -> bool {
    &&& forall|t: int| 0 <= t < stats.len() ==> {
        let e = #[trigger] stats[t];
        &&& counted(only_one, name, e.player@)
        &&& e.stats.games == games_played(es, e.player@, e.commander@)
        &&& e.stats.wins == games_won(es, e.player@, e.commander@)
        &&& e.stats.games > 0
    }
    &&& forall|t: int, u: int|
        0 <= t < u < stats.len() ==> !(#[trigger] stats[t].player@ == #[trigger] stats[u].player@
            && stats[t].commander@ == stats[u].commander@)
    &&& forall|p: Seq<char>, c: Seq<char>|
        counted(only_one, name, p) && #[trigger] games_played(es, p, c) > 0 ==> exists|t: int|
            0 <= t < stats.len() && (#[trigger] stats[t]).player@ == p && stats[t].commander@ == c
}

/// Counting one more seat: the games of a (player, commander) pair grow by
/// one exactly when the seat is that pair, and its wins grow by one exactly
/// when the seat is that pair and its player won.
pub proof fn lemma_counts_push(es: Seq<(Seq<char>, Seq<char>, bool)>, x: (Seq<char>, Seq<char>, bool))
    ensures
        forall|p: Seq<char>, c: Seq<char>|
            #[trigger] games_played(es.push(x), p, c) == games_played(es, p, c) + (if x.0 == p
                && x.1 == c {
                1nat
            } else {
                0nat
            }),
        forall|p: Seq<char>, c: Seq<char>|
            #[trigger] games_won(es.push(x), p, c) == games_won(es, p, c) + (if x.0 == p && x.1 == c
                && x.2 {
                1nat
            } else {
                0nat
            }),
{
    assert(es.push(x).drop_last() =~= es);
}

proof fn lemma_counts_bounded(es: Seq<(Seq<char>, Seq<char>, bool)>, p: Seq<char>, c: Seq<char>)
    ensures
        games_won(es, p, c) <= games_played(es, p, c) <= es.len(),
    decreases es.len(),
{
    if es.len() > 0 {
        lemma_counts_bounded(es.drop_last(), p, c);
    }
}

/// Some counted (player, commander) pair was played more than `u32::MAX`
/// times, more than a `u32` counter holds.
pub open spec fn overflows(es: Seq<(Seq<char>, Seq<char>, bool)>, only_one: bool, name: Seq<char>) -> bool {
    exists|p: Seq<char>, c: Seq<char>|
        counted(only_one, name, p) && #[trigger] games_played(es, p, c) > u32::MAX
}

proof fn lemma_counts_grow(a: Seq<(Seq<char>, Seq<char>, bool)>, b: Seq<(Seq<char>, Seq<char>, bool)>, p: Seq<char>, c: Seq<char>)
    ensures
        games_played(a, p, c) <= games_played(a + b, p, c),
    decreases b.len(),
{
    if b.len() > 0 {
        lemma_counts_grow(a, b.drop_last(), p, c);
        assert((a + b).drop_last() =~= a + b.drop_last());
    }
}

proof fn lemma_prefix_counts(ms: Seq<MatchView>, i: int, p: Seq<char>, c: Seq<char>)
    requires
        0 <= i <= ms.len(),
    ensures
        games_played(all_outcomes(ms.take(i)), p, c) <= games_played(all_outcomes(ms), p, c),
    decreases ms.len(),
{
    if i < ms.len() {
        assert(ms.drop_last().take(i) =~= ms.take(i));
        lemma_prefix_counts(ms.drop_last(), i, p, c);
        lemma_counts_grow(all_outcomes(ms.drop_last()), match_outcomes(ms.last()), p, c);
    } else {
        assert(ms.take(i) =~= ms);
    }
}

/// A tally never overflows: every counted pair was played at most
/// `u32::MAX` times.
proof fn lemma_tally_fits(
    stats: Seq<CommanderEntry>,
    es: Seq<(Seq<char>, Seq<char>, bool)>,
    only_one: bool,
    name: Seq<char>,
)
    requires
        is_tally(stats, es, only_one, name),
    ensures
        !overflows(es, only_one, name),
{
    assert forall|p: Seq<char>, c: Seq<char>| counted(only_one, name, p) implies #[trigger] games_played(es, p, c) <= u32::MAX by {
        if games_played(es, p, c) > 0 {
            let t = choose|t: int| 0 <= t < stats.len() && (#[trigger] stats[t]).player@ == p && stats[t].commander@ == c;
            assert(stats[t].stats.games == games_played(es, p, c));
        }
    }
}

proof fn lemma_outcomes_step(ms: Seq<MatchView>, i: int)
    requires
        0 <= i < ms.len(),
    ensures
        all_outcomes(ms.take(i + 1)) == all_outcomes(ms.take(i)) + match_outcomes(ms[i]),
{
    assert(ms.take(i + 1).drop_last() =~= ms.take(i));
}

/// Finds the entry of `player` with `commander`.
fn find_entry(stats: &Vec<CommanderEntry>, player: &String, commander: &String) -> (r: Option<usize>)
    ensures
        match r {
            Some(t) => t < stats.len() && stats@[t as int].player@ == player@
                && stats@[t as int].commander@ == commander@,
            None => forall|t: int|
                0 <= t < stats.len() ==> !(stats@[t].player@ == player@ && stats@[t].commander@
                    == commander@),
        },
{
    let mut t: usize = 0;
    while t < stats.len()
        invariant
            t <= stats.len(),
            forall|u: int|
                0 <= u < t ==> !(stats@[u].player@ == player@ && stats@[u].commander@ == commander@),
        decreases stats.len() - t,
    {
        if stats[t].player == *player && stats[t].commander == *commander {
            return Some(t);
        }
        t = t + 1;
    }
    None
}

/// Counts, seat by seat, the games played and won per (player, commander);
/// with `only_one`, only the seats of `name`.  Entries come in the order in
/// which their pair first occurs.
fn tally(matches: &Vec<MatchRecord>, only_one: bool, name: &String) -> (r: Option<Vec<CommanderEntry>>)
    ensures
        match r {
            Some(v) => is_tally(v@, all_outcomes(matches_view(matches@)), only_one, name@),
            None => overflows(all_outcomes(matches_view(matches@)), only_one, name@),
        },
{
    let ghost mv = matches_view(matches@);
    let mut stats: Vec<CommanderEntry> = Vec::new();
    let mut i: usize = 0;
    assert(mv.take(0) =~= Seq::<MatchView>::empty());
    while i < matches.len()
        invariant
            mv == matches_view(matches@),
            i <= matches.len(),
            is_tally(stats@, all_outcomes(mv.take(i as int)), only_one, name@),
        decreases matches.len() - i,
    {
        let m = &matches[i];
        let ghost before = all_outcomes(mv.take(i as int));
        let ghost row = match_outcomes(mv[i as int]);
        proof {
            lemma_outcomes_step(mv, i as int);
            assert(row.take(0) =~= Seq::<(Seq<char>, Seq<char>, bool)>::empty());
            assert(before + row.take(0) =~= before);
        }
        let mut j: usize = 0;
        while j < m.players.len()
            invariant
                mv == matches_view(matches@),
                i < matches.len(),
                m == matches@[i as int],
                row == match_outcomes(mv[i as int]),
                row.len() == m.players@.len(),
                before + row == all_outcomes(mv.take(i + 1)),
                j <= m.players.len(),
                is_tally(stats@, before + row.take(j as int), only_one, name@),
            decreases m.players.len() - j,
        {
            let seat = &m.players[j];
            let ghost es = before + row.take(j as int);
            let ghost x = row[j as int];
            assert(x == (seat.player@, seat.commander@, seat.player@ == m.winner@));
            assert(es.push(x) =~= before + row.take(j + 1));
            proof {
                lemma_counts_push(es, x);
            }
            if !only_one || seat.player == *name {
                let won = seat.player == m.winner;
                match find_entry(&stats, &seat.player, &seat.commander) {
                    Some(t) => {
                        proof {
                            lemma_counts_bounded(es.push(x), seat.player@, seat.commander@);
                        }
                        if stats[t].stats.games == u32::MAX {
                            proof {
                                let (p, c) = (seat.player@, seat.commander@);
                                assert(before + row =~= (before + row.take(j + 1)) + row.skip(j + 1));
                                lemma_counts_grow(before + row.take(j + 1), row.skip(j + 1), p, c);
                                lemma_prefix_counts(mv, i + 1, p, c);
                                assert(mv.take(mv.len() as int) =~= mv);
                                assert(games_played(all_outcomes(mv), p, c) > u32::MAX);
                            }
                            return None;
                        }
                        let old_stats = CommanderStats {
                            games: stats[t].stats.games,
                            wins: stats[t].stats.wins,
                        };
                        let entry = CommanderEntry {
                            player: stats[t].player.clone(),
                            commander: stats[t].commander.clone(),
                            stats: CommanderStats {
                                games: old_stats.games + 1,
                                wins: if won { old_stats.wins + 1 } else { old_stats.wins },
                            },
                        };
                        let ghost prev = stats@;
                        stats.set(t, entry);
                        assert forall|p: Seq<char>, c: Seq<char>|
                            counted(only_one, name@, p) && #[trigger] games_played(es.push(x), p, c) > 0
                            implies exists|u: int|
                            0 <= u < stats@.len() && (#[trigger] stats@[u]).player@ == p
                                && stats@[u].commander@ == c by {
                            if games_played(es, p, c) > 0 {
                                let u = choose|u: int|
                                    0 <= u < prev.len() && (#[trigger] prev[u]).player@ == p
                                        && prev[u].commander@ == c;
                                assert(stats@[u].player@ == p);
                            } else {
                                assert(stats@[t as int].player@ == p);
                            }
                        }
                    },
                    None => {
                        proof {
                            lemma_counts_bounded(es, seat.player@, seat.commander@);
                        }
                        let entry = CommanderEntry {
                            player: seat.player.clone(),
                            commander: seat.commander.clone(),
                            stats: CommanderStats { games: 1, wins: if won { 1 } else { 0 } },
                        };
                        let ghost prev = stats@;
                        stats.push(entry);
                        assert forall|p: Seq<char>, c: Seq<char>|
                            counted(only_one, name@, p) && #[trigger] games_played(es.push(x), p, c) > 0
                            implies exists|u: int|
                            0 <= u < stats@.len() && (#[trigger] stats@[u]).player@ == p
                                && stats@[u].commander@ == c by {
                            if games_played(es, p, c) > 0 {
                                let u = choose|u: int|
                                    0 <= u < prev.len() && (#[trigger] prev[u]).player@ == p
                                        && prev[u].commander@ == c;
                                assert(stats@[u] == prev[u]);
                            } else {
                                assert(stats@[prev.len() as int].player@ == p);
                            }
                        }
                    },
                }
            } else {
                assert forall|p: Seq<char>, c: Seq<char>|
                    counted(only_one, name@, p) && #[trigger] games_played(es.push(x), p, c) > 0
                    implies exists|u: int|
                    0 <= u < stats@.len() && (#[trigger] stats@[u]).player@ == p
                        && stats@[u].commander@ == c by {
                    assert(games_played(es, p, c) > 0);
                }
            }
            j = j + 1;
        }
        assert(row.take(row.len() as int) =~= row);
        i = i + 1;
    }
    assert(mv.take(matches.len() as int) =~= mv);
    Some(stats)
}

/// `a` has at least the win rate of `b` (wins over games, compared exactly).
pub open spec fn rate_at_least(a: CommanderStats, b: CommanderStats) -> bool {
    a.wins * b.games >= b.wins * a.games
}

/// Entries listed by win rate, highest first.
pub open spec fn by_win_rate(stats: Seq<CommanderEntry>) -> bool {
    forall|i: int, j: int|
        0 <= i < j < stats.len() ==> rate_at_least(#[trigger] stats[i].stats, #[trigger] stats[j].stats)
}

proof fn lemma_rate_transitive(a: CommanderStats, b: CommanderStats, c: CommanderStats)
    requires
        b.games > 0,
        rate_at_least(a, b),
        rate_at_least(b, c),
    ensures
        rate_at_least(a, c),
{
    let (aw, ag, bw, bg, cw, cg) = (
        a.wins as int,
        a.games as int,
        b.wins as int,
        b.games as int,
        c.wins as int,
        c.games as int,
    );
    assert(aw * cg >= cw * ag) by (nonlinear_arith)
        requires
            bg > 0,
            ag >= 0,
            cg >= 0,
            aw * bg >= bw * ag,
            bw * cg >= cw * bg,
    {
        assert(aw * bg * cg >= bw * ag * cg);
        assert(bw * cg * ag >= cw * bg * ag);
        assert(bg * (aw * cg - cw * ag) >= 0);
    }
}

proof fn lemma_product_fits(x: u64, y: u64)
    requires
        x <= 0xffff_ffff,
        y <= 0xffff_ffff,
    ensures
        x * y <= 0xffff_fffe_0000_0001,
{
    assert(x * y <= 0xffff_ffff * 0xffff_ffff) by (nonlinear_arith)
        requires
            x <= 0xffff_ffff,
            y <= 0xffff_ffff,
    ;
}

fn rate_at_least_exec(a: &CommanderStats, b: &CommanderStats) -> (r: bool)
    ensures
        r == rate_at_least(*a, *b),
{
    let (aw, ag, bw, bg) = (a.wins as u64, a.games as u64, b.wins as u64, b.games as u64);
    proof {
        lemma_product_fits(aw, bg);
        lemma_product_fits(bw, ag);
    }
    aw * bg >= bw * ag
}

/// `src` tells where each entry of `s` was taken from among the first `k`
/// entries of `orig`: each position once, every one of them taken.
spec fn taken_from(s: Seq<CommanderEntry>, src: Seq<int>, orig: Seq<CommanderEntry>, k: int) -> bool {
    &&& src.len() == s.len()
    &&& forall|q: int| 0 <= q < s.len() ==> 0 <= #[trigger] src[q] < k && s[q] == orig[src[q]]
    &&& forall|q: int, q2: int| 0 <= q < q2 < s.len() ==> #[trigger] src[q] != #[trigger] src[q2]
    &&& forall|t: int| 0 <= t < k ==> #[trigger] appears(src, t)
}

spec fn appears(src: Seq<int>, t: int) -> bool {
    exists|q: int| 0 <= q < src.len() && src[q] == t
}

proof fn lemma_insert_keeps_order(old: Seq<CommanderEntry>, p: int, x: CommanderEntry)
    requires
        0 <= p <= old.len(),
        by_win_rate(old),
        forall|i: int| 0 <= i < p ==> rate_at_least((#[trigger] old[i]).stats, x.stats),
        forall|q: int| p <= q < old.len() ==> rate_at_least(x.stats, (#[trigger] old[q]).stats),
    ensures
        by_win_rate(old.insert(p, x)),
{
    let new = old.insert(p, x);
    assert forall|i: int, j: int| 0 <= i < j < new.len() implies
        rate_at_least(#[trigger] new[i].stats, #[trigger] new[j].stats) by {
        if j < p {
            assert(new[i] == old[i] && new[j] == old[j]);
        } else if j == p {
            assert(new[i] == old[i]);
        } else if i == p {
            assert(new[j] == old[j - 1]);
        } else if i < p {
            assert(new[i] == old[i] && new[j] == old[j - 1]);
        } else {
            assert(new[i] == old[i - 1] && new[j] == old[j - 1]);
        }
    }
}

proof fn lemma_insert_keeps_source(
    old: Seq<CommanderEntry>,
    src: Seq<int>,
    p: int,
    orig: Seq<CommanderEntry>,
    k: int,
)
    requires
        0 <= p <= old.len(),
        0 <= k < orig.len(),
        taken_from(old, src, orig, k),
    ensures
        taken_from(old.insert(p, orig[k]), src.insert(p, k), orig, k + 1),
{
    let new = old.insert(p, orig[k]);
    let ns = src.insert(p, k);
    assert forall|q: int| 0 <= q < new.len() implies 0 <= #[trigger] ns[q] < k + 1 && new[q]
        == orig[ns[q]] by {
        if q < p {
            assert(ns[q] == src[q] && new[q] == old[q]);
        } else if q > p {
            assert(ns[q] == src[q - 1] && new[q] == old[q - 1]);
        }
    }
    assert forall|q: int, q2: int| 0 <= q < q2 < new.len() implies #[trigger] ns[q]
        != #[trigger] ns[q2] by {
        let o = if q < p { q } else { q - 1 };
        let o2 = if q2 < p { q2 } else { q2 - 1 };
        if q != p && q2 != p {
            assert(ns[q] == src[o] && ns[q2] == src[o2]);
        } else if q == p {
            assert(ns[q2] == src[o2]);
        } else {
            assert(ns[q] == src[o]);
        }
    }
    assert forall|t: int| 0 <= t < k + 1 implies #[trigger] appears(ns, t) by {
        if t < k {
            assert(appears(src, t));
            let q = choose|q: int| 0 <= q < src.len() && src[q] == t;
            if q < p {
                assert(ns[q] == src[q]);
            } else {
                assert(ns[q + 1] == src[q]);
            }
        } else {
            assert(ns[p] == t);
        }
    }
}

proof fn lemma_taken_keeps_tally(
    s: Seq<CommanderEntry>,
    src: Seq<int>,
    orig: Seq<CommanderEntry>,
    es: Seq<(Seq<char>, Seq<char>, bool)>,
    only_one: bool,
    name: Seq<char>,
)
    requires
        taken_from(s, src, orig, orig.len() as int),
        is_tally(orig, es, only_one, name),
    ensures
        is_tally(s, es, only_one, name),
{
    assert forall|t: int, u: int|
        0 <= t < u < s.len() implies !(#[trigger] s[t].player@ == #[trigger] s[u].player@
            && s[t].commander@ == s[u].commander@) by {
        let (a, b) = (src[t], src[u]);
        if a < b {
            assert(!(orig[a].player@ == orig[b].player@ && orig[a].commander@ == orig[b].commander@));
        } else {
            assert(!(orig[b].player@ == orig[a].player@ && orig[b].commander@ == orig[a].commander@));
        }
    }
    assert forall|p: Seq<char>, c: Seq<char>|
        counted(only_one, name, p) && #[trigger] games_played(es, p, c) > 0 implies exists|q: int|
            0 <= q < s.len() && (#[trigger] s[q]).player@ == p && s[q].commander@ == c by {
        let t = choose|t: int| 0 <= t < orig.len() && (#[trigger] orig[t]).player@ == p && orig[t].commander@ == c;
        assert(appears(src, t));
        let q = choose|q: int| 0 <= q < src.len() && src[q] == t;
        assert(s[q] == orig[t]);
    }
    assert forall|q: int| 0 <= q < s.len() implies {
        let e = #[trigger] s[q];
        &&& counted(only_one, name, e.player@)
        &&& e.stats.games == games_played(es, e.player@, e.commander@)
        &&& e.stats.wins == games_won(es, e.player@, e.commander@)
        &&& e.stats.games > 0
    } by {
        assert(s[q] == orig[src[q]]);
    }
}

/// Sorts entries by win rate, highest first; entries with the same rate keep
/// their order.  The result is a tally of the same seats.
fn sort_by_win_rate(
    v: Vec<CommanderEntry>,
    Ghost(es): Ghost<Seq<(Seq<char>, Seq<char>, bool)>>,
    Ghost(only_one): Ghost<bool>,
    Ghost(name): Ghost<Seq<char>>,
) -> (r: Vec<CommanderEntry>)
    requires
        is_tally(v@, es, only_one, name),
    ensures
        is_tally(r@, es, only_one, name),
        by_win_rate(r@),
{
    let ghost orig = v@;
    let mut rest = v;
    let mut sorted: Vec<CommanderEntry> = Vec::new();
    let ghost mut src: Seq<int> = Seq::empty();
    while rest.len() > 0
        invariant
            sorted@.len() + rest@.len() == orig.len(),
            rest@ == orig.skip(sorted@.len() as int),
            is_tally(orig, es, only_one, name),
            by_win_rate(sorted@),
            taken_from(sorted@, src, orig, sorted@.len() as int),
        decreases rest@.len(),
    {
        let ghost k = sorted@.len() as int;
        let x = rest.remove(0);
        assert(x == orig[k]);
        assert(rest@ =~= orig.skip(k + 1));
        let mut p: usize = 0;
        while p < sorted.len() && rate_at_least_exec(&sorted[p].stats, &x.stats)
            invariant
                p <= sorted@.len(),
                forall|i: int| 0 <= i < p ==> rate_at_least((#[trigger] sorted@[i]).stats, x.stats),
            decreases sorted@.len() - p,
        {
            p = p + 1;
        }
        let ghost old_sorted = sorted@;
        proof {
            assert forall|q: int| p <= q < old_sorted.len() implies
                rate_at_least(x.stats, (#[trigger] old_sorted[q]).stats) by {
                assert(!rate_at_least(old_sorted[p as int].stats, x.stats));
                if q > p {
                    assert(old_sorted[p as int] == orig[src[p as int]]);
                    assert(orig[src[p as int]].stats.games > 0);
                    lemma_rate_transitive(x.stats, old_sorted[p as int].stats, old_sorted[q].stats);
                }
            }
            lemma_insert_keeps_order(old_sorted, p as int, x);
            lemma_insert_keeps_source(old_sorted, src, p as int, orig, k);
            src = src.insert(p as int, k);
        }
        sorted.insert(p, x);
    }
    proof {
        lemma_taken_keeps_tally(sorted@, src, orig, es, only_one, name);
    }
    sorted
}

/// Win rates of every player with every commander they played: one entry
/// per (player, commander) pair that occurs in `matches`, with the number of
/// games it was played and won, listed by win rate, highest first.  (Which
/// of two entries with the same rate comes first is not fixed.)  `None`
/// when some pair was played more often than a `u32` counter holds.
pub fn commander_winrates(matches: &Vec<MatchRecord>) -> (r: Option<Vec<CommanderEntry>>)
    ensures
        r is Some <==> !overflows(all_outcomes(matches_view(matches@)), false, Seq::empty()),
        r matches Some(v) ==> is_tally(v@, all_outcomes(matches_view(matches@)), false, Seq::empty())
            && by_win_rate(v@),
{
    let nobody = String::new();
    match tally(matches, false, &nobody) {
        None => None,
        Some(counts) => {
            proof {
                lemma_tally_fits(counts@, all_outcomes(matches_view(matches@)), false, nobody@);
            }
            Some(
                sort_by_win_rate(
                    counts,
                    Ghost(all_outcomes(matches_view(matches@))),
                    Ghost(false),
                    Ghost(nobody@),
                ),
            )
        },
    }
}

/// Win rates of one player with each commander they played: one entry per
/// commander that `player` played in `matches`, listed by win rate, highest
/// first.  Empty when the player has no games; `None` when one of their
/// commanders was played more often than a `u32` counter holds.
pub fn player_commanders(matches: &Vec<MatchRecord>, player: &String) -> (r: Option<Vec<CommanderEntry>>)
    ensures
        r is Some <==> !overflows(all_outcomes(matches_view(matches@)), true, player@),
        r matches Some(v) ==> is_tally(v@, all_outcomes(matches_view(matches@)), true, player@)
            && by_win_rate(v@),
{
    match tally(matches, true, player) {
        None => None,
        Some(counts) => {
            proof {
                lemma_tally_fits(counts@, all_outcomes(matches_view(matches@)), true, player@);
            }
            Some(
                sort_by_win_rate(
                    counts,
                    Ghost(all_outcomes(matches_view(matches@))),
                    Ghost(true),
                    Ghost(player@),
                ),
            )
        },
    }
}

/// A seat of `m` belongs to `name`, ignoring the case of ASCII letters.
pub open spec fn plays_in(m: MatchView, name: Seq<char>) -> bool {
    exists|i: int| 0 <= i < m.players.len() && ascii_case_insensitive_eq(#[trigger] m.players[i].player, name)
}

/// Number of matches `name` played in.
pub open spec fn matches_played(ms: Seq<MatchView>, name: Seq<char>) -> nat
    decreases ms.len(),
{
    if ms.len() == 0 {
        0
    } else {
        matches_played(ms.drop_last(), name) + (if plays_in(ms.last(), name) { 1nat } else { 0nat })
    }
}

/// Number of matches `name` played in and won.
pub open spec fn matches_won(ms: Seq<MatchView>, name: Seq<char>) -> nat
    decreases ms.len(),
{
    if ms.len() == 0 {
        0
    } else {
        matches_won(ms.drop_last(), name) + (if plays_in(ms.last(), name)
            && ascii_case_insensitive_eq(ms.last().winner, name) {
            1nat
        } else {
            0nat
        })
    }
}

/// Wins and losses of one player.
#[derive(Debug, Clone, PartialEq, Eq)]
pub struct PlayerResults {
    pub wins: usize,
    pub losses: usize,
    pub total: usize,
}

/// Wins and losses of the player called `name` (ASCII case ignored): a match
/// counts when one of its seats is theirs, as a win when they are also its
/// winner.  `None` when they played no match.
pub fn search_player_results(matches: &Vec<MatchRecord>, name: &str) -> (r: Option<PlayerResults>)
    ensures
        match r {
            None => matches_played(matches_view(matches@), name@) == 0,
            Some(res) => {
                &&& matches_played(matches_view(matches@), name@) > 0
                &&& res.wins == matches_won(matches_view(matches@), name@)
                &&& res.losses == matches_played(matches_view(matches@), name@) - matches_won(
                    matches_view(matches@),
                    name@,
                )
                &&& res.total == res.wins + res.losses
                &&& res.total == matches_played(matches_view(matches@), name@)
            },
        },
{
    let ghost mv = matches_view(matches@);
    let mut wins: usize = 0;
    let mut losses: usize = 0;
    let mut found = false;
    let mut i: usize = 0;
    assert(mv.take(0) =~= Seq::<MatchView>::empty());
    while i < matches.len()
        invariant
            mv == matches_view(matches@),
            i <= matches.len(),
            wins + losses <= i,
            wins == matches_won(mv.take(i as int), name@),
            wins + losses == matches_played(mv.take(i as int), name@),
            found == (matches_played(mv.take(i as int), name@) > 0),
        decreases matches.len() - i,
    {
        let m = &matches[i];
        assert(mv.take(i + 1).drop_last() =~= mv.take(i as int));
        let mut plays = false;
        let mut j: usize = 0;
        while j < m.players.len()
            invariant
                mv == matches_view(matches@),
                i < matches.len(),
                m == matches@[i as int],
                j <= m.players.len(),
                plays == exists|k: int| 0 <= k < j && ascii_case_insensitive_eq(#[trigger] mv[i as int].players[k].player, name@),
            decreases m.players.len() - j,
        {
            assert(mv[i as int].players[j as int] == m.players@[j as int]@);
            let same = eq_ignore_ascii_case(m.players[j].player.as_str(), name);
            assert(same == ascii_case_insensitive_eq(mv[i as int].players[j as int].player, name@));
            if same {
                plays = true;
            }
            j = j + 1;
        }
        assert(plays == plays_in(mv[i as int], name@));
        if plays {
            found = true;
            if eq_ignore_ascii_case(m.winner.as_str(), name) {
                wins = wins + 1;
            } else {
                losses = losses + 1;
            }
        }
        i = i + 1;
    }
    assert(mv.take(matches.len() as int) =~= mv);
    if !found {
        None
    } else {
        Some(PlayerResults { wins, losses, total: wins + losses })
    }
}

/// No entry of a tally has more wins than games.
pub proof fn lemma_tally_wins_at_most_games(
    stats: Seq<CommanderEntry>,
    es: Seq<(Seq<char>, Seq<char>, bool)>,
    only_one: bool,
    name: Seq<char>,
)
    requires
        is_tally(stats, es, only_one, name),
    ensures
        forall|t: int| 0 <= t < stats.len() ==> (#[trigger] stats[t]).stats.wins <= stats[t].stats.games,
{
    assert forall|t: int| 0 <= t < stats.len() implies (#[trigger] stats[t]).stats.wins
        <= stats[t].stats.games by {
        lemma_counts_bounded(es, stats[t].player@, stats[t].commander@);
    }
}

/// `e` is in the table `all`, with the same numbers.
pub open spec fn in_table(all: Seq<CommanderEntry>, e: CommanderEntry) -> bool {
    exists|u: int|
        0 <= u < all.len() && (#[trigger] all[u]).player@ == e.player@ && all[u].commander@
            == e.commander@ && all[u].stats == e.stats
}

/// `e`'s pair (player, commander) has an entry in `mine`.
pub open spec fn has_pair(mine: Seq<CommanderEntry>, e: CommanderEntry) -> bool {
    exists|t: int|
        0 <= t < mine.len() && (#[trigger] mine[t]).player@ == e.player@ && mine[t].commander@
            == e.commander@
}

/// The statistics of one player agree with the overall table: each of the
/// player's entries is in the table with the same numbers, and each entry
/// of the table for that player is among the player's entries.
pub proof fn lemma_player_tally_agrees(
    all: Seq<CommanderEntry>,
    mine: Seq<CommanderEntry>,
    es: Seq<(Seq<char>, Seq<char>, bool)>,
    name: Seq<char>,
)
    requires
        is_tally(all, es, false, Seq::empty()),
        is_tally(mine, es, true, name),
    ensures
        forall|t: int| 0 <= t < mine.len() ==> #[trigger] in_table(all, mine[t]),
        forall|u: int| 0 <= u < all.len() && all[u].player@ == name ==> #[trigger] has_pair(mine, all[u]),
{
    assert forall|t: int| 0 <= t < mine.len() implies #[trigger] in_table(all, mine[t]) by {
        let e = mine[t];
        assert(games_played(es, e.player@, e.commander@) > 0);
        assert(counted(false, Seq::empty(), e.player@));
        let u = choose|u: int| 0 <= u < all.len() && (#[trigger] all[u]).player@ == e.player@
            && all[u].commander@ == e.commander@;
        assert(all[u].stats.games == e.stats.games);
        assert(all[u].stats == e.stats);
    }
    assert forall|u: int| 0 <= u < all.len() && all[u].player@ == name implies #[trigger] has_pair(mine, all[u]) by {
        let e = all[u];
        assert(games_played(es, e.player@, e.commander@) > 0);
        assert(counted(true, name, e.player@));
    }
}

/// The seats of one more match come after those of the earlier matches,
/// in seat order, each marked as won exactly when its player is the
/// match's winner.
pub proof fn lemma_outcomes_of_next_match(ms: Seq<MatchView>, m: MatchView)
    ensures
        all_outcomes(ms.push(m)).len() == all_outcomes(ms).len() + m.players.len(),
        forall|k: int|
            0 <= k < all_outcomes(ms).len() ==> #[trigger] all_outcomes(ms.push(m))[k] == all_outcomes(ms)[k],
        forall|k: int|
            0 <= k < m.players.len() ==> #[trigger] all_outcomes(ms.push(m))[all_outcomes(ms).len() + k] == (
                m.players[k].player,
                m.players[k].commander,
                m.players[k].player == m.winner,
            ),
{
    assert(ms.push(m).drop_last() =~= ms);
}

/// A table in win-rate order: each entry's win rate (wins over games) is at
/// least that of every entry after it.
pub proof fn lemma_win_rate_order(stats: Seq<CommanderEntry>)
    requires
        by_win_rate(stats),
    ensures
        forall|i: int, j: int|
            0 <= i < j < stats.len() ==> (#[trigger] stats[i]).stats.wins * (#[trigger] stats[j]).stats.games
                >= stats[j].stats.wins * stats[i].stats.games,
{
    assert forall|i: int, j: int| 0 <= i < j < stats.len() implies (#[trigger] stats[i]).stats.wins
        * (#[trigger] stats[j]).stats.games >= stats[j].stats.wins * stats[i].stats.games by {
        assert(rate_at_least(stats[i].stats, stats[j].stats));
    }
}

/// What a tally holds: each entry gives the games played and won by its
/// pair, at least one game; no pair has two entries; and every counted pair
/// that was played has an entry.
pub proof fn lemma_tally_meaning(
    stats: Seq<CommanderEntry>,
    es: Seq<(Seq<char>, Seq<char>, bool)>,
    only_one: bool,
    name: Seq<char>,
)
    requires
        is_tally(stats, es, only_one, name),
    ensures
        forall|t: int|
            0 <= t < stats.len() ==> (#[trigger] stats[t]).stats.games == games_played(es, stats[t].player@, stats[t].commander@)
                && stats[t].stats.wins == games_won(es, stats[t].player@, stats[t].commander@)
                && stats[t].stats.games >= 1 && (only_one ==> stats[t].player@ == name),
        forall|t: int, u: int|
            0 <= t < stats.len() && 0 <= u < stats.len() && t != u ==> !((#[trigger] stats[t]).player@ == (#[trigger] stats[u]).player@
                && stats[t].commander@ == stats[u].commander@),
        forall|p: Seq<char>, c: Seq<char>|
            (!only_one || p == name) && #[trigger] games_played(es, p, c) >= 1 ==> exists|t: int|
                0 <= t < stats.len() && (#[trigger] stats[t]).player@ == p && stats[t].commander@ == c,
{
    assert forall|t: int, u: int|
        0 <= t < stats.len() && 0 <= u < stats.len() && t != u implies !((#[trigger] stats[t]).player@
            == (#[trigger] stats[u]).player@ && stats[t].commander@ == stats[u].commander@) by {
        if t > u {
            assert(!(stats[u].player@ == stats[t].player@ && stats[u].commander@ == stats[t].commander@));
        }
    }
    assert forall|p: Seq<char>, c: Seq<char>|
        (!only_one || p == name) && #[trigger] games_played(es, p, c) >= 1 implies exists|t: int|
            0 <= t < stats.len() && (#[trigger] stats[t]).player@ == p && stats[t].commander@ == c by {
        assert(counted(only_one, name, p));
    }
}

/// One more match counts as played for `name` exactly when one of its
/// seats is theirs (ASCII case ignored), and as won exactly when also its
/// winner is them.
pub proof fn lemma_results_of_next_match(ms: Seq<MatchView>, m: MatchView, name: Seq<char>)
    ensures
        matches_played(ms.push(m), name) == matches_played(ms, name) + (if exists|i: int|
            0 <= i < m.players.len() && ascii_case_insensitive_eq(#[trigger] m.players[i].player, name) {
            1int
        } else {
            0int
        }),
        matches_won(ms.push(m), name) == matches_won(ms, name) + (if (exists|i: int|
            0 <= i < m.players.len() && ascii_case_insensitive_eq(#[trigger] m.players[i].player, name))
            && ascii_case_insensitive_eq(m.winner, name) {
            1int
        } else {
            0int
        }),
        matches_played(Seq::<MatchView>::empty(), name) == 0,
        matches_won(Seq::<MatchView>::empty(), name) == 0,
{
    assert(ms.push(m).drop_last() =~= ms);
}

} // verus!
