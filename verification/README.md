# mtg_fletch

Bookkeeping for a Magic: The Gathering playgroup rated with the Fletch
(Glicko-style) system, as a Verus-verified library plus a terminal program.

* `src/` — the verified library:
  * `text` — trusted wrappers over `str::to_lowercase`, `str::parse::<usize>`,
    `str::eq_ignore_ascii_case` and `strsim::jaro_winkler`;
  * `search` — fuzzy lookup of a player by name;
  * `ranking` — stable ranking of players by an integer key;
  * `records` — recorded matches;
  * `stats` — commander win rates and a player's wins and losses; the
    per-(player, commander) tally is a `Vec` with one entry per pair (stated
    by `is_tally`) rather than a `HashMap`, on purpose: with `String` keys a
    map gives the proofs nothing to work with, and a `Vec` in first-seen
    order makes the result deterministic;
  * `add_match` — the state machine that enters a match answer by answer;
  * `menu` — reading a menu choice.
* `app/` — the program: terminal I/O, JSON save files (serde), and the
  floating-point rating arithmetic.
* `tests/` — tests of the library.
