# Mastermind

The code-breaking game Mastermind on the command line, and a brute-force
search for an optimal guessing strategy, written in Verus.

## Layout

- `src/mastermind_mechanics.rs` — configurations, codes, grades: grading a
  guess against a solution (exact matches first, then colors), checking
  entered codes, enumerating all codes in counting order, random codes.
- `src/mastermind_io.rs` — turning typed text into a code.
- `src/mastermind_gameplay.rs` — the state of one interactive game.
- `src/mastermind_solver.rs` — the strategy search: every informative guess
  for the codes still possible, grouped by grade; propagating level by level
  (in parallel), counting the guesses of the best strategy found so far,
  pruning, and playing the strategy.
- `src/mastermind_solver/consistency.rs` — what a search tree stands for and
  the laws of the solver: the count of a finished strategy is the number of
  guesses it makes against all codes, a finished count stays, no count is
  below the best case of `2n - 1` guesses for `n` codes, and no strategy
  that guesses as the search may (one guess per way of splitting the codes)
  needs fewer guesses than the count of a finished search.
- `src/toy.rs` — a toy version of the level-wise search.
- `app/main.rs` — the command line program (`play`, or `solve` with the
  number of columns and colors), logging and printing.

## Assumptions of the solver

- Permutation: if two guesses split the possible codes into groups of the
  same sizes behind the same grades, only the first of them is kept.
- Pruning: `n` codes need at least `2n - 1` guesses in all (one guess that
  tells all codes apart, then one more for each code but the guessed one);
  guesses whose count is worse than a (partially) finished count are
  dropped. A handler that is not yet finished counts the least count of its
  guesses, so that every count stays a lower bound of what a strategy needs.
