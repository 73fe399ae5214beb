//! A complete game of 2048: the board, the score, and the seeded generator that
//! places a new tile after every move.  Sums saturate at `u32::MAX`.
use vstd::prelude::*;

use rand::RngExt;

use crate::board::{
    Board, IBoard, compact_line, empty_cells, ints, lemma_empty_cells_found, lemma_empty_cells_zero, matrix_grid,
    read_line, set_cell, write_line,
};
use crate::rules::{
    all_within, can_slide, cell_max, gain_sat_upto, grid_line, has_empty, lemma_coords,
    lemma_gain_nonneg, lemma_line_valid, lemma_lines, lemma_merge_run, lemma_move,
    lemma_saturation_free, lemma_slide, line_gain_sat, line_of, merge_gain_sat, merge_run,
    move_gain, moved, moved_sat, pos_of, sat, slide, valid_grid, zeros, Grid,
};
use crate::types;

verus! {

pub const BOARD_SIZE: usize = 4;

pub const CELL_COUNT: usize = BOARD_SIZE * BOARD_SIZE;

/// The four directions a player can push the tiles.
#[derive(Debug, Clone, Copy, PartialEq, Eq, Structural)]
pub enum Direction {
    Up,
    Right,
    Down,
    Left,
}

/// The direction of the board rules that a player's direction stands for.
pub open spec fn heading(d: Direction) -> types::Direction {
    match d {
        Direction::Up => types::Direction::Up,
        Direction::Right => types::Direction::Right,
        Direction::Down => types::Direction::Down,
        Direction::Left => types::Direction::Left,
    }
}

fn to_heading(d: Direction) -> (h: types::Direction)
    ensures
        h == heading(d),
{
    match d {
        Direction::Up => types::Direction::Up,
        Direction::Right => types::Direction::Right,
        Direction::Down => types::Direction::Down,
        Direction::Left => types::Direction::Left,
    }
}

/// The grid with every cell empty.
pub open spec fn empty_grid() -> Grid {
    Seq::new(4, |r: int| Seq::new(4, |c: int| 0int))
}

/// The SplitMix64 output for the state it has just advanced to.
pub open spec fn splitmix(state: u64) -> u64 {
    let a = vstd::wrapping::u64_specs::wrapping_mul(state ^ (state >> 30u64), 0xBF58476D1CE4E5B9u64);
    let b = vstd::wrapping::u64_specs::wrapping_mul(a ^ (a >> 27u64), 0x94D049BB133111EBu64);
    b ^ (b >> 31u64)
}

/// The next state of the SplitMix64 generator.
pub open spec fn advance(state: u64) -> u64 {
    vstd::wrapping::u64_specs::wrapping_add(state, 0x9E3779B97F4A7C15u64)
}

/// A new tile in a random empty cell: the grid after it, the generator state
/// after it, and whether a cell was free.  The tile is a `2` nine times out of
/// ten and a `4` otherwise.
pub open spec fn spawn_tile(g: Grid, state: u64) -> (Grid, u64, bool) {
    let e = empty_cells(g, 16);
    if e.len() == 0 {
        (g, state, false)
    } else {
        let s1 = advance(state);
        let i = (splitmix(s1) as usize) as int % e.len() as int;
        let s2 = advance(s1);
        let v = if splitmix(s2) % 10 < 9 {
            2int
        } else {
            4int
        };
        (set_cell(g, e[i].0 as int, e[i].1 as int, v), s2, true)
    }
}

/// A new tile of a game lands in the empty cell, counted row by row, that the
/// first SplitMix64 output picks, and is a `2` when the second output, taken
/// modulo ten, is below nine, a `4` otherwise; the generator moves on two
/// steps.  A full grid gets no tile.
pub proof fn law_new_tile_is_a_two_nine_times_in_ten(g: Grid, state: u64)
    ensures
        empty_cells(g, 16).len() == 0 ==> spawn_tile(g, state) == (g, state, false),
        empty_cells(g, 16).len() > 0 ==> spawn_tile(g, state).1 == advance(advance(state)) && spawn_tile(
            g,
            state,
        ).2,
        empty_cells(g, 16).len() > 0 && splitmix(advance(advance(state))) % 10 < 9 ==> spawn_tile(g, state).0
            == set_cell(
            g,
            empty_cells(g, 16)[(splitmix(advance(state)) as usize) as int % empty_cells(g, 16).len() as int].0 as int,
            empty_cells(g, 16)[(splitmix(advance(state)) as usize) as int % empty_cells(g, 16).len() as int].1 as int,
            2,
        ),
        empty_cells(g, 16).len() > 0 && splitmix(advance(advance(state))) % 10 >= 9 ==> spawn_tile(g, state).0
            == set_cell(
            g,
            empty_cells(g, 16)[(splitmix(advance(state)) as usize) as int % empty_cells(g, 16).len() as int].0 as int,
            empty_cells(g, 16)[(splitmix(advance(state)) as usize) as int % empty_cells(g, 16).len() as int].1 as int,
            4,
        ),
{
}

/// Grid, score and generator state of the game started from `seed`.
pub open spec fn seeded_game(seed: u64) -> (Grid, int, u64) {
    let first = spawn_tile(empty_grid(), seed);
    let second = spawn_tile(first.0, first.1);
    (second.0, 0, second.1)
}

/// The moves that change the grid, in the order Up, Right, Down, Left.
pub open spec fn game_moves(g: Grid) -> Seq<Direction> {
    let up = if can_slide(g, types::Direction::Up) { seq![Direction::Up] } else { Seq::empty() };
    let right = if can_slide(g, types::Direction::Right) { seq![Direction::Right] } else { Seq::empty() };
    let down = if can_slide(g, types::Direction::Down) { seq![Direction::Down] } else { Seq::empty() };
    let left = if can_slide(g, types::Direction::Left) { seq![Direction::Left] } else { Seq::empty() };
    up + right + down + left
}

/// A pushed line, every merged tile saturated at `u32::MAX`.
pub open spec fn slide_sat(line: Seq<int>) -> Seq<int> {
    Seq::new(4, |j: int| sat(slide(line)[j]))
}

#[derive(Debug, Clone, PartialEq, Eq)]
pub struct Game {
    board: [[u32; BOARD_SIZE]; BOARD_SIZE],
    score: u32,
    random_state: u64,
}

/// A seed for a new game, drawn from the thread-local generator of `rand`.
/// Nothing is stated of the value: any `u64` may come back.
#[verifier::external_body]
fn random_seed() -> u64 {
    rand::rng().random()
}

impl Game {
    /// The tiles of the game.
    pub closed spec fn grid(&self) -> Grid {
        matrix_grid(self.board)
    }

    /// The score of the game.
    pub closed spec fn points(&self) -> int {
        self.score as int
    }

    /// The state of the game's generator.
    pub closed spec fn state(&self) -> u64 {
        self.random_state
    }

    /// Every cell holds a `u32`, and so does the score.
    pub proof fn lemma_valid(&self)
        ensures
            valid_grid(self.grid()),
            0 <= self.points() <= cell_max(),
    {
    }

    /// Starts a normal 2048 game with two randomly placed tiles.
    pub fn new() -> (game: Self)
        ensures
            exists|seed: u64| (game.grid(), game.points(), game.state()) == seeded_game(seed),
    {
        let seed = random_seed();
        Self::from_seed(seed)
    }

    /// Starts a reproducible game. Equal seeds produce equal tile sequences.
    pub fn from_seed(seed: u64) -> (game: Self)
        ensures
            (game.grid(), game.points(), game.state()) == seeded_game(seed),
    {
        let mut game = Self { board: [[0;4];4], score: 0, random_state: seed };
        assert(game.grid() =~~= empty_grid());
        game.spawn_random_tile();
        game.spawn_random_tile();
        game
    }

    /// Useful for tests, replays, and evaluating a network from a known state.
    pub fn from_board(board: [[u32; BOARD_SIZE]; BOARD_SIZE]) -> (game: Self)
        ensures
            game.grid() == matrix_grid(board),
            game.points() == 0,
            game.state() == 0,
    {
        Self { board, score: 0, random_state: 0 }
    }

    pub fn board(&self) -> (b: &[[u32; BOARD_SIZE]; BOARD_SIZE])
        ensures
            matrix_grid(*b) == self.grid(),
    {
        &self.board
    }

    /// The tiles row by row.
    pub fn flattened_board(&self) -> (flat: [u32; CELL_COUNT])
        ensures
            forall|r: int, c: int| 0 <= r < 4 && 0 <= c < 4 ==> #[trigger] flat[4 * r + c] == self.grid()[r][c],
    {
        let mut flattened: [u32; CELL_COUNT] = [0; CELL_COUNT];
        let mut row: usize = 0;
        while row < 4
            invariant
                row <= 4,
                forall|r: int, c: int| 0 <= r < row && 0 <= c < 4 ==> #[trigger] flattened[4 * r + c] == self.board[r][c],
            decreases 4 - row,
        {
            let mut col: usize = 0;
            while col < 4
                invariant
                    row < 4,
                    col <= 4,
                    forall|r: int, c: int| 0 <= r < row && 0 <= c < 4 ==> #[trigger] flattened[4 * r + c] == self.board[r][c],
                    forall|c: int| 0 <= c < col ==> #[trigger] flattened[4 * row + c] == self.board[row as int][c],
                decreases 4 - col,
            {
                flattened[row * 4 + col] = self.board[row][col];
                col = col + 1;
            }
            row = row + 1;
        }
        flattened
    }

    pub fn score(&self) -> (s: u32)
        ensures
            s == self.points(),
    {
        self.score
    }

    pub fn empty_tiles(&self) -> (empty: Vec<(usize, usize)>)
        ensures
            empty@ == empty_cells(self.grid(), 16),
    {
        let mut empty: Vec<(usize, usize)> = Vec::new();
        let mut row: usize = 0;
        while row < 4
            invariant
                row <= 4,
                empty@ == empty_cells(self.grid(), 4 * row),
            decreases 4 - row,
        {
            let mut col: usize = 0;
            while col < 4
                invariant
                    row < 4,
                    col <= 4,
                    empty@ == empty_cells(self.grid(), 4 * row + col),
                decreases 4 - col,
            {
                assert((4 * row + col) / 4 == row && (4 * row + col) % 4 == col);
                if self.board[row][col] == 0 {
                    empty.push((row, col));
                }
                col = col + 1;
            }
            row = row + 1;
        }
        empty
    }

    /// Whether a move in `direction` changes the board.
    pub fn can_move(&self, direction: Direction) -> (ok: bool)
        ensures
            ok == can_slide(self.grid(), heading(direction)),
    {
        let mut copy = Self { board: self.board, score: self.score, random_state: self.random_state };
        copy.apply_move(direction)
    }

    pub fn available_moves(&self) -> (moves: Vec<Direction>)
        ensures
            moves@ == game_moves(self.grid()),
    {
        let mut moves: Vec<Direction> = Vec::new();
        if self.can_move(Direction::Up) {
            moves.push(Direction::Up);
        }
        if self.can_move(Direction::Right) {
            moves.push(Direction::Right);
        }
        if self.can_move(Direction::Down) {
            moves.push(Direction::Down);
        }
        if self.can_move(Direction::Left) {
            moves.push(Direction::Left);
        }
        assert(moves@ =~= game_moves(self.grid()));
        moves
    }

    pub fn is_game_over(&self) -> (over: bool)
        ensures
            over == (game_moves(self.grid()).len() == 0),
    {
        self.available_moves().len() == 0
    }

    /// Applies one turn. A random tile is spawned only after a legal move.
    pub fn make_move(&mut self, direction: Direction) -> (moved: bool)
        ensures
            moved == can_slide(old(self).grid(), heading(direction)),
            !moved ==> final(self).grid() == old(self).grid() && final(self).points() == old(self).points()
                && final(self).state() == old(self).state(),
            moved ==> final(self).points() == sat(
                old(self).points() + gain_sat_upto(old(self).grid(), heading(direction), 4),
            ),
            moved ==> (final(self).grid(), final(self).state(), true) == spawn_tile(
                moved_sat(old(self).grid(), heading(direction)),
                old(self).state(),
            ),
    {
        proof {
            self.lemma_valid();
            lemma_move(self.grid(), heading(direction));
        }
        if !self.apply_move(direction) {
            return false;
        }
        proof {
            lemma_empty_cells_found(self.grid());
        }
        let _ = self.spawn_random_tile();
        true
    }

    fn spawn_random_tile(&mut self) -> (placed: bool)
        ensures
            (final(self).grid(), final(self).state(), placed) == spawn_tile(old(self).grid(), old(self).state()),
            final(self).points() == old(self).points(),
    {
        let empty = self.empty_tiles();
        if empty.len() == 0 {
            return false;
        }
        let position = self.next_random() as usize % empty.len();
        let (row, col) = empty[position];
        proof {
            lemma_empty_cells_zero(old(self).grid());
        }
        let ghost before = self.grid();
        self.board[row][col] = if self.next_random() % 10 < 9 {
            2
        } else {
            4
        };
        assert(self.grid() =~~= set_cell(before, row as int, col as int, self.board[row as int][col as int] as int));
        true
    }

    /// SplitMix64 is small, fast, and sufficient for reproducible game simulation.
    fn next_random(&mut self) -> (value: u64)
        ensures
            final(self).state() == advance(old(self).state()),
            value == splitmix(advance(old(self).state())),
            final(self).grid() == old(self).grid(),
            final(self).points() == old(self).points(),
    {
        self.random_state = self.random_state.wrapping_add(0x9E3779B97F4A7C15);
        let mut value = self.random_state;
        value = (value ^ (value >> 30)).wrapping_mul(0xBF58476D1CE4E5B9);
        value = (value ^ (value >> 27)).wrapping_mul(0x94D049BB133111EB);
        value ^ (value >> 31)
    }

    /// Pushes every line of the board in `direction`, with no new tile.
    /// Returns whether the board changed.
    pub fn apply_move(&mut self, direction: Direction) -> (changed: bool)
        ensures
            final(self).grid() == moved_sat(old(self).grid(), heading(direction)),
            final(self).points() == sat(old(self).points() + gain_sat_upto(old(self).grid(), heading(direction), 4)),
            final(self).state() == old(self).state(),
            changed == can_slide(old(self).grid(), heading(direction)),
    {
        let previous = self.board;
        let mut board = self.board;
        let mut score = self.score;
        let d = to_heading(direction);
        let ghost g = self.grid();
        let ghost score0 = self.points();
        let mut index: usize = 0;
        proof {
            self.lemma_valid();
            lemma_coords(d);
            lemma_lines(g, d);
            lemma_gain_nonneg(g, d, 4);
        }
        while index < 4
            invariant
                index <= 4,
                g == matrix_grid(previous),
                valid_grid(g),
                d == heading(direction),
                0 <= score0 <= cell_max(),
                score == sat(score0 + gain_sat_upto(g, d, index as int)),
                forall|r: int, c: int|
                    0 <= r < 4 && 0 <= c < 4 ==> {
                        &&& 0 <= #[trigger] line_of(d, r, c) < 4
                        &&& 0 <= #[trigger] pos_of(d, r, c) < 4
                    },
                forall|r: int, c: int|
                    0 <= r < 4 && 0 <= c < 4 && line_of(d, r, c) < index ==> #[trigger] board[r][c]
                        == sat(slide(grid_line(g, d, line_of(d, r, c)))[pos_of(d, r, c)]),
                forall|r: int, c: int|
                    0 <= r < 4 && 0 <= c < 4 && line_of(d, r, c) >= index ==> #[trigger] board[r][c]
                        == g[r][c],
            decreases 4 - index,
        {
            let line = read_line(&previous, d, index);
            proof {
                lemma_line_valid(g, d, index as int);
                lemma_gain_nonneg(g, d, index as int);
            }
            let (merged, gained_score) = merge_line(line);
            score = score.saturating_add(gained_score);
            let ghost before = board;
            write_line(&mut board, d, index, merged);
            proof {
                assert forall|r: int, c: int|
                    0 <= r < 4 && 0 <= c < 4 && line_of(d, r, c) <= index implies #[trigger] board[r][c]
                        == sat(slide(grid_line(g, d, line_of(d, r, c)))[pos_of(d, r, c)]) by {
                    if line_of(d, r, c) == index {
                        assert(ints(merged@)[pos_of(d, r, c)] == merged[pos_of(d, r, c)] as int);
                    } else {
                        assert(board[r][c] == before[r][c]);
                    }
                }
                assert forall|r: int, c: int|
                    0 <= r < 4 && 0 <= c < 4 && line_of(d, r, c) > index implies #[trigger] board[r][c]
                        == g[r][c] by {
                    assert(board[r][c] == before[r][c]);
                }
            }
            index = index + 1;
        }
        self.board = board;
        self.score = score;
        proof {
            assert(self.grid() =~~= moved_sat(g, d));
            lemma_move(g, d);
        }
        !same_board(&self.board, &previous)
    }
}

impl Default for Game {
    fn default() -> (game: Self)
        ensures
            exists|seed: u64| (game.grid(), game.points(), game.state()) == seeded_game(seed),
    {
        Self::new()
    }
}

/// A new tile goes into an empty cell and is a `2` or a `4`.
proof fn lemma_spawn_places(g: Grid, state: u64)
    requires
        has_empty(g),
    ensures
        exists|r: int, c: int, v: int|
            0 <= r < 4 && 0 <= c < 4 && g[r][c] == 0 && (v == 2 || v == 4) && spawn_tile(g, state).0
                == #[trigger] set_cell(g, r, c, v),
{
    lemma_empty_cells_found(g);
    lemma_empty_cells_zero(g);
    let e = empty_cells(g, 16);
    let s1 = advance(state);
    let i = (splitmix(s1) as usize) as int % e.len() as int;
    let v = if splitmix(advance(s1)) % 10 < 9 { 2int } else { 4int };
    let r = e[i].0 as int;
    let c = e[i].1 as int;
    assert(g[r][c] == 0);
    assert(spawn_tile(g, state).0 == set_cell(g, r, c, v));
}

/// A game started from any seed holds exactly two tiles, each a `2` or a `4`.
pub proof fn law_new_game_has_two_tiles(seed: u64)
    ensures
        ({
            let g = seeded_game(seed).0;
            exists|r1: int, c1: int, r2: int, c2: int|
                0 <= r1 < 4 && 0 <= c1 < 4 && 0 <= r2 < 4 && 0 <= c2 < 4 && (r1 != r2 || c1 != c2)
                    && (#[trigger] g[r1][c1] == 2 || g[r1][c1] == 4)
                    && (#[trigger] g[r2][c2] == 2 || g[r2][c2] == 4)
                    && forall|r: int, c: int|
                        0 <= r < 4 && 0 <= c < 4 && (r != r1 || c != c1) && (r != r2 || c != c2) ==> g[r][c] == 0
        }),
{
    let g0 = empty_grid();
    assert(g0[0][0] == 0);
    let first = spawn_tile(g0, seed);
    lemma_spawn_places(g0, seed);
    let (r1, c1, v1) = choose|r: int, c: int, v: int|
        0 <= r < 4 && 0 <= c < 4 && g0[r][c] == 0 && (v == 2 || v == 4) && first.0 == #[trigger] set_cell(g0, r, c, v);
    let g1 = first.0;
    assert(g1[r1][c1] == v1);
    let fr: int = if r1 == 0 && c1 == 0 { 0 } else { 0 };
    let fc: int = if r1 == 0 && c1 == 0 { 1 } else { 0 };
    assert(g1[fr][fc] == 0);
    let second = spawn_tile(g1, first.1);
    lemma_spawn_places(g1, first.1);
    let (r2, c2, v2) = choose|r: int, c: int, v: int|
        0 <= r < 4 && 0 <= c < 4 && g1[r][c] == 0 && (v == 2 || v == 4) && second.0 == #[trigger] set_cell(g1, r, c, v);
    let g2 = second.0;
    assert(r1 != r2 || c1 != c2);
    assert(g2[r2][c2] == v2);
    assert(g2[r1][c1] == v1);
    assert forall|r: int, c: int|
        0 <= r < 4 && 0 <= c < 4 && (r != r1 || c != c1) && (r != r2 || c != c2) implies g2[r][c] == 0 by {
        assert(g2[r][c] == g1[r][c]);
        assert(g1[r][c] == g0[r][c]);
    }
    assert(seeded_game(seed).0 == g2);
}

/// The game and the AI's board move alike: on the same tiles and score, a move
/// whose points fit in the board's score gives the same tiles and the same
/// score in both, the game's saturating sums never reaching their bound.
pub proof fn law_game_and_board_moves_agree(game: Game, board: Board, d: Direction)
    requires
        game.grid() == board.grid(),
        game.points() == board.points(),
        board.move_fits(heading(d)),
    ensures
        moved_sat(game.grid(), heading(d)) == moved(board.grid(), heading(d)),
        sat(game.points() + gain_sat_upto(game.grid(), heading(d), 4)) == board.points() + move_gain(
            board.grid(),
            heading(d),
        ),
{
    board.lemma_valid();
    lemma_move(board.grid(), heading(d));
    lemma_saturation_free(board.grid(), heading(d));
}

/// Whether a game takes a move depends on its tiles alone: `can_move` and
/// `make_move` both answer `can_slide` of the tiles, on any game, and that is
/// exactly when the move changes the tiles.
pub proof fn law_game_move_made_iff_tiles_change(game: Game, d: Direction)
    ensures
        can_slide(game.grid(), heading(d)) <==> moved_sat(game.grid(), heading(d)) != game.grid(),
{
    game.lemma_valid();
    lemma_move(game.grid(), heading(d));
}

/// Whether two boards hold the same tiles.
fn same_board(a: &[[u32; BOARD_SIZE]; BOARD_SIZE], b: &[[u32; BOARD_SIZE]; BOARD_SIZE]) -> (same: bool)
    ensures
        same == (matrix_grid(*a) == matrix_grid(*b)),
{
    let mut row: usize = 0;
    while row < 4
        invariant
            row <= 4,
            forall|r: int, c: int| 0 <= r < row && 0 <= c < 4 ==> #[trigger] a[r][c] == b[r][c],
        decreases 4 - row,
    {
        let mut col: usize = 0;
        while col < 4
            invariant
                row < 4,
                col <= 4,
                forall|r: int, c: int| 0 <= r < row && 0 <= c < 4 ==> #[trigger] a[r][c] == b[r][c],
                forall|c: int| 0 <= c < col ==> #[trigger] a[row as int][c] == b[row as int][c],
            decreases 4 - col,
        {
            if a[row][col] != b[row][col] {
                proof {
                    if matrix_grid(*a) == matrix_grid(*b) {
                        assert(matrix_grid(*a)[row as int][col as int] == matrix_grid(*b)[row as int][col as int]);
                    }
                }
                return false;
            }
            col = col + 1;
        }
        row = row + 1;
    }
    assert(matrix_grid(*a) =~~= matrix_grid(*b));
    true
}

/// `2 * x`, saturated at `u32::MAX`.
fn saturating_double(x: u32) -> (y: u32)
    ensures
        y == sat(2 * x),
{
    x.checked_mul(2).unwrap_or(u32::MAX)
}

/// Pushes a line towards position `0`, saturating every sum at `u32::MAX`;
/// returns the new line and the points it made.
pub fn merge_line(line: [u32; BOARD_SIZE]) -> (res: ([u32; BOARD_SIZE], u32))
    ensures
        ints(res.0@) == slide_sat(ints(line@)),
        res.1 == line_gain_sat(ints(line@)),
{
    let tiles = compact_line(line);
    let ghost t = ints(tiles@);
    let ghost full = merge_run(t);
    let mut merged: [u32; BOARD_SIZE] = [0; BOARD_SIZE];
    let mut gained_score: u32 = 0;
    let mut source: usize = 0;
    let mut destination: usize = 0;
    proof {
        assert(t.skip(0) =~= t);
        lemma_merge_run(t, 1, cell_max());
        assert(ints(merged@).take(0) + sat_all(merge_run(t.skip(0))) =~= sat_all(full));
    }
    while source < tiles.len()
        invariant
            t == ints(tiles@),
            t.len() <= 4,
            all_within(t, 1, cell_max()),
            full == merge_run(t),
            full.len() <= t.len(),
            source <= t.len(),
            destination <= 4,
            destination + merge_run(t.skip(source as int)).len() == full.len(),
            ints(merged@).take(destination as int) + sat_all(merge_run(t.skip(source as int))) == sat_all(full),
            forall|j: int| destination <= j < 4 ==> #[trigger] merged@[j] == 0,
            sat(gained_score + merge_gain_sat(t.skip(source as int))) == sat(merge_gain_sat(t)),
            0 <= merge_gain_sat(t.skip(source as int)),
        decreases t.len() - source,
    {
        let ghost rest = t.skip(source as int);
        proof {
            lemma_merge_run(rest, 1, cell_max());
        }
        if source + 1 < tiles.len() && tiles[source] == tiles[source + 1] {
            proof {
                assert(rest.skip(2) =~= t.skip(source + 2));
                assert(rest[0] == t[source as int]);
                assert(rest[1] == t[source + 1]);
                lemma_merge_run(t.skip(source + 2), 1, cell_max());
            }
            let value = saturating_double(tiles[source]);
            let ghost before = merged@;
            merged[destination] = value;
            gained_score = gained_score.saturating_add(value);
            proof {
                assert(ints(merged@).take(destination + 1) =~= ints(before).take(destination as int).push(value as int));
                assert(sat_all(merge_run(rest)) =~= seq![value as int] + sat_all(merge_run(t.skip(source + 2))));
                assert(ints(merged@).take(destination + 1) + sat_all(merge_run(t.skip(source + 2))) =~= ints(before).take(destination as int) + sat_all(merge_run(rest)));
            }
            source = source + 2;
        } else {
            proof {
                assert(rest.skip(1) =~= t.skip(source + 1));
                assert(rest[0] == t[source as int]);
                if source + 1 < t.len() {
                    assert(rest[1] == t[source + 1]);
                }
            }
            let ghost before = merged@;
            merged[destination] = tiles[source];
            proof {
                assert(ints(merged@).take(destination + 1) =~= ints(before).take(destination as int).push(tiles@[source as int] as int));
                assert(sat_all(merge_run(rest)) =~= seq![tiles@[source as int] as int] + sat_all(merge_run(t.skip(source + 1))));
                assert(ints(merged@).take(destination + 1) + sat_all(merge_run(t.skip(source + 1))) =~= ints(before).take(destination as int) + sat_all(merge_run(rest)));
            }
            source = source + 1;
        }
        destination = destination + 1;
    }
    proof {
        assert(t.skip(source as int).len() == 0);
        assert(merge_run(t.skip(source as int)) =~= Seq::<int>::empty());
        assert(sat_all(merge_run(t.skip(source as int))) =~= Seq::<int>::empty());
        assert(ints(merged@).take(destination as int) =~= sat_all(full));
        lemma_slide(ints(line@));
        assert(ints(merged@) =~= slide_sat(ints(line@))) by {
            assert(slide(ints(line@)) =~= full + zeros((4 - full.len()) as nat));
            assert forall|j: int| 0 <= j < 4 implies ints(merged@)[j] == slide_sat(ints(line@))[j] by {
                if j < full.len() {
                    assert(ints(merged@)[j] == sat_all(full)[j]);
                } else {
                    assert(slide(ints(line@))[j] == 0);
                }
            }
        }
    }
    (merged, gained_score)
}

/// Every entry saturated at `u32::MAX`.
pub open spec fn sat_all(s: Seq<int>) -> Seq<int> {
    Seq::new(s.len(), |i: int| sat(s[i]))
}

} // verus!
