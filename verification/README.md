# yahtzeebot

A verified library for solving solo Yahtzee: the data model, the scoring
rules, the lookup tables and the decision rules of a bottom-up
expected-value solver, proved with Verus. The program in `app/` runs the
solver and prints, as CSV, the best choice and its expected value for every
game state.

## Layout

- `src/dievals.rs`: five dice packed three bits each (`DieVals`), and the id
  of a sorted dice combination (`DieValsID`).
- `src/sorted_slots.rs`: the open scorecard slots as a bit set.
- `src/upper_totals.rs`: the upper-section totals worth tracking per slot set.
- `src/score.rs`: the score of each slot, with the laws for sorted dice.
- `src/counting.rs`, `src/combinatorics.rs`: counts of values, factorials,
  arrangement counts.
- `src/distribution.rs`, `src/roll_weights.rs`: the arrangement counts as
  weights of a roll, summing to `6^k` for `k` rolled dice.
- `src/enumeration.rs`: combinations, combinations with repetition,
  permutations and index tuples, as the `itertools` calls return them.
- `src/tables.rs`: the tables of sorted dice ids and roll outcomes.
- `src/selections.rs`: which dice a selection bitfield rolls (bit `i` rolls
  die `i`), and its entry in the table of ways to pick dice.
- `src/game_state.rs`, `src/state_counts.rs`: game states, the score of a
  slot within a game, and the size of the state space.
- `src/solver.rs`: the rules the solver applies between states.
- `src/lookups.rs`: the laws that each lookup the solver makes (head slot,
  remaining slots, next roll) uses an upper total and bonus flag that the
  solver builds states for.
- `src/text.rs`: the CSV text of a state and its choice.
- `app/main.rs`: the solver loop (`f32` expected values, `rayon`), the
  progress bar and the output.
