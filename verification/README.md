# game2048

A 2048 engine and the players that choose its moves, verified with Verus.

- `src/rules.rs` states the rules as mathematics: how a line of four cells
  slides and merges, and what a move does to a grid, with the lemmas that the
  rest of the library rests on.
- `src/board.rs` is the board the move choosers reason about; `src/game_2048.rs`
  is a full game with seeded tile placement and saturating sums.
- `src/expectimax.rs` (the depth-based expectimax search behind
  `next_move_depth`), `src/controller.rs` (greedy rollouts),
  `src/random_simulation.rs` (random
  games) and `src/trained_model.rs` (the choice among a network's outputs)
  choose moves; `src/player.rs` is how an evolving player's network plays a
  turn; `src/lib.rs` holds the entry points a host calls.
- `src/god.rs` holds the bookkeeping of the evolution of players (population
  sizes, selection counts, seed schedules), and
  `src/cli.rs` reads the counts given on its command line.
- `app/` holds what computes in floating point or talks to the outside world:
  the networks, the players and their evolution, the command line program, and
  the WebAssembly exports.
