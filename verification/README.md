# minesweeper_core

A Minesweeper engine and the estimators that say how likely each cell hides a mine,
verified with Verus.

- `board` holds the rules of the game, `moves` what every move keeps, `autoplay` the
  playing of what can be proven.
- `probability` holds the estimators: an exact search over all consistent layouts
  (`constraint_search`), sampling (`monte_carlo`), belief propagation in fixed point
  (`fpga_bp`), and what a neural network is asked and answers (`patch`, `patch_cnn`,
  `neural`). `consistent` says what the exact numbers mean and states the laws.
- `console`, `page`, `session`, `window` and `samples` are the decisions of the front ends:
  a terminal, a served page, a page of its own, a window, and a generator of training data.
- `big_nat`, `counting`, `layouts` and `combos` are the arithmetic beneath.

Estimates are exact: each cell's weight over the weight of all layouts, as natural numbers of
any size. Floating point begins in `app/`, which holds the programs around the library.
