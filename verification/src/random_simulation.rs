//! Chooses a move by playing random games to the end after each candidate
//! move and keeping the move with the highest total final score.
use vstd::prelude::*;

use crate::board::{
    available, empty_cells, fits, lemma_available, lemma_empty_cells_found, lemma_grid_sum_bound,
    lemma_set_cell_sum, set_cell, Board, IBoard,
};
use crate::rules::{
    can_slide, cell_max, grid_sum, lemma_move, lemma_move_sum, move_gain, moved, valid_grid, Grid,
};
use crate::types::Direction;

verus! {

/// Number of complete random games evaluated for every available first move.
pub const DEFAULT_RUN_COUNT: usize = 100;

/// One step of the xorshift generator on its state.
pub open spec fn xorshift(s: u64) -> u64 {
    let a = s ^ (s >> 12u64);
    let b = a ^ (a << 25u64);
    b ^ (b >> 27u64)
}

/// The number the generator hands out from state `s`.
pub open spec fn rng_out(s: u64) -> u64 {
    vstd::wrapping::u64_specs::wrapping_mul(xorshift(s), 0x2545_F491_4F6C_DD1Du64)
}

/// The index below `bound` that the generator picks from state `s`.
pub open spec fn rng_index(s: u64, bound: int) -> int {
    rng_out(s) as int % bound
}

/// The state a generator starts from, for a seed.
pub open spec fn initial_state(seed: u64) -> u64 {
    if seed == 0 {
        0xA076_1D64_78BD_642Fu64
    } else {
        seed
    }
}

/// The generator never reaches the all-zero state, from which it would hand
/// out `0` forever: every seed gives a nonzero starting state, and a step of
/// xorshift keeps a nonzero state nonzero.
pub proof fn law_xorshift_keeps_nonzero(s: u64)
    ensures
        initial_state(s) != 0,
        s != 0 ==> xorshift(s) != 0,
{
    if s != 0 {
        let a = s ^ (s >> 12u64);
        let b = a ^ (a << 25u64);
        assert(a != 0) by (bit_vector)
            requires
                s != 0,
                a == s ^ (s >> 12u64),
        ;
        assert(b != 0) by (bit_vector)
            requires
                a != 0,
                b == a ^ (a << 25u64),
        ;
        assert(b ^ (b >> 27u64) != 0) by (bit_vector)
            requires
                b != 0,
        ;
    }
}

/// The grid and generator state after a tile is placed in a random empty cell:
/// a `2` nine times out of ten, a `4` otherwise.  A full grid stays as it is.
pub open spec fn spawn(g: Grid, s: u64) -> (Grid, u64) {
    let e = empty_cells(g, 16);
    if e.len() == 0 {
        (g, s)
    } else {
        let i = rng_index(s, e.len() as int);
        let s1 = xorshift(s);
        let v = if rng_index(s1, 10) < 9 {
            2int
        } else {
            4int
        };
        (set_cell(g, e[i].0 as int, e[i].1 as int, v), xorshift(s1))
    }
}

/// A new tile of a random game lands in the empty cell, counted row by row,
/// that the generator's first draw picks, and is a `2` when its second draw,
/// taken modulo ten, is below nine, a `4` otherwise; the generator moves on two
/// steps.  A full grid gets no tile.
pub proof fn law_spawn_places_a_two_nine_times_in_ten(g: Grid, s: u64)
    ensures
        empty_cells(g, 16).len() == 0 ==> spawn(g, s) == (g, s),
        empty_cells(g, 16).len() > 0 ==> spawn(g, s).1 == xorshift(xorshift(s)),
        empty_cells(g, 16).len() > 0 && rng_out(xorshift(s)) % 10 < 9 ==> spawn(g, s).0 == set_cell(
            g,
            empty_cells(g, 16)[rng_out(s) as int % empty_cells(g, 16).len() as int].0 as int,
            empty_cells(g, 16)[rng_out(s) as int % empty_cells(g, 16).len() as int].1 as int,
            2,
        ),
        empty_cells(g, 16).len() > 0 && rng_out(xorshift(s)) % 10 >= 9 ==> spawn(g, s).0 == set_cell(
            g,
            empty_cells(g, 16)[rng_out(s) as int % empty_cells(g, 16).len() as int].0 as int,
            empty_cells(g, 16)[rng_out(s) as int % empty_cells(g, 16).len() as int].1 as int,
            4,
        ),
{
}

/// Final score of a random game played on from grid `g` with score `score`
/// and generator state `s`: each turn a random available move, then a new
/// tile, until no move is available.  A drawn move whose points would no
/// longer fit in the `u32` score ends the game where it stands.
/// Every turn adds a tile, so the sum of the tiles grows while it stays within
/// sixteen cells; the test on the sums states this for the recursion, and
/// `lemma_turn` shows that it always holds.
#[verifier::opaque]
pub open spec fn random_game(g: Grid, score: int, s: u64) -> int
    decreases 16 * cell_max() - grid_sum(g),
{
    let moves = available(g);
    if moves.len() == 0 {
        score
    } else {
        let d = moves[rng_index(s, moves.len() as int)];
        if !fits(g, score, d) {
            score
        } else {
            let next = spawn(moved(g, d), xorshift(s));
            let score2 = score + move_gain(g, d);
            if grid_sum(g) < grid_sum(next.0) <= 16 * cell_max() {
                random_game(next.0, score2, next.1)
            } else {
                score2
            }
        }
    }
}

/// Final score of a random game that opens with move `d`.
pub open spec fn first_game(g: Grid, score: int, d: Direction, s: u64) -> int {
    let next = spawn(moved(g, d), s);
    random_game(next.0, score + move_gain(g, d), next.1)
}

/// FNV-1a hash of the first `n` cells of the grid in row-major order.
pub open spec fn grid_hash(g: Grid, n: int) -> u64
    decreases n,
{
    if n <= 0 {
        0xCBF2_9CE4_8422_2325u64
    } else {
        let h = grid_hash(g, n - 1) ^ (g[(n - 1) / 4][(n - 1) % 4] as u64);
        vstd::wrapping::u64_specs::wrapping_mul(h, 0x100_0000_01B3u64)
    }
}

/// Seed of random game number `run` after the move at `move_index`.
pub open spec fn run_seed(base: u64, move_index: int, run: int) -> u64 {
    base ^ vstd::wrapping::u64_specs::wrapping_mul((move_index + 1) as u64, 0x9E37_79B9_7F4A_7C15u64)
        ^ vstd::wrapping::u64_specs::wrapping_mul((run + 1) as u64, 0xD1B5_4A32_D192_ED03u64)
}

/// Total final score of the first `n` random games opening with move `d`.
pub open spec fn runs_total(g: Grid, score: int, d: Direction, base: u64, move_index: int, n: int) -> int
    decreases n,
{
    if n <= 0 {
        0
    } else {
        runs_total(g, score, d, base, move_index, n - 1) + first_game(
            g,
            score,
            d,
            initial_state(run_seed(base, move_index, n - 1)),
        )
    }
}

/// The best move and its total among the first `n` moves of `moves`; a move
/// replaces the best only with a strictly larger total.
pub open spec fn best_upto(g: Grid, score: int, runs: int, base: u64, moves: Seq<Direction>, n: int) -> (
    Direction,
    int,
)
    decreases n,
{
    if n <= 0 {
        (moves[0], 0)
    } else {
        let prev = best_upto(g, score, runs, base, moves, n - 1);
        let d = moves[n - 1];
        if !fits(g, score, d) {
            prev
        } else {
            let total = runs_total(g, score, d, base, n - 1, runs);
            if total > prev.1 {
                (d, total)
            } else {
                prev
            }
        }
    }
}

/// The move `best_move` picks for a board with grid `g` and score `score`.
pub open spec fn best_random_move(g: Grid, score: int, run_count: int) -> Direction {
    let runs = if run_count < 1 {
        1
    } else {
        run_count
    };
    best_upto(g, score, runs, grid_hash(g, 16), available(g), available(g).len() as int).0
}

/// The move `best_move` keeps has the highest total among the moves it played:
/// no move that fits has a larger total, and the kept move is either one of them
/// with its total or the first move while every total is `0`.
pub proof fn law_best_total_is_highest(g: Grid, score: int, runs: int, base: u64, moves: Seq<Direction>, n: int)
    requires
        0 <= n <= moves.len(),
        moves.len() > 0,
    ensures
        forall|i: int|
            0 <= i < n && fits(g, score, #[trigger] moves[i]) ==> runs_total(g, score, moves[i], base, i, runs)
                <= best_upto(g, score, runs, base, moves, n).1,
        best_upto(g, score, runs, base, moves, n) == (moves[0], 0int) || exists|i: int|
            0 <= i < n && fits(g, score, moves[i]) && best_upto(g, score, runs, base, moves, n) == (
                moves[i],
                runs_total(g, score, #[trigger] moves[i], base, i, runs),
            ),
    decreases n,
{
    if n > 0 {
        law_best_total_is_highest(g, score, runs, base, moves, n - 1);
    }
}

/// Chooses the opening move whose random continuations have the highest
/// average final score.  A move whose points would no longer fit in the `u32`
/// score is not played.
pub fn best_move(board: &Board, run_count: usize) -> (direction: Direction)
    requires
        available(board.grid()).len() > 0,
    ensures
        direction == best_random_move(board.grid(), board.points(), run_count as int),
        can_slide(board.grid(), direction),
{
    let moves = board.available_moves();
    let runs = if run_count < 1 {
        1
    } else {
        run_count
    };
    let base_seed = board_seed(board);
    let ghost g = board.grid();
    let ghost score = board.points();
    let mut best_direction = moves[0];
    let mut best_total: u128 = 0;
    let mut move_index: usize = 0;
    proof {
        lemma_available(g);
    }
    while move_index < moves.len()
        invariant
            g == board.grid(),
            score == board.points(),
            moves@ == available(g),
            moves@.len() <= 4,
            moves@.len() > 0,
            1 <= runs,
            runs == if run_count < 1 { 1 } else { run_count },
            base_seed == grid_hash(g, 16),
            move_index <= moves@.len(),
            (best_direction, best_total as int) == best_upto(g, score, runs as int, base_seed, moves@, move_index as int),
            forall|i: int| 0 <= i < moves@.len() ==> can_slide(g, #[trigger] moves@[i]),
            can_slide(g, best_direction),
        decreases moves@.len() - move_index,
    {
        let direction = moves[move_index];
        if board.accepts_move(direction) {
            let total = total_for_move(board, direction, base_seed, move_index, runs);
            if total > best_total {
                best_total = total;
                best_direction = direction;
            }
        }
        move_index = move_index + 1;
    }
    best_direction
}

/// Total final score of `runs` random games opening with `direction`.
fn total_for_move(board: &Board, direction: Direction, base_seed: u64, move_index: usize, runs: usize) -> (total: u128)
    requires
        fits(board.grid(), board.points(), direction),
        move_index < 4,
    ensures
        total == runs_total(board.grid(), board.points(), direction, base_seed, move_index as int, runs as int),
{
    let ghost g = board.grid();
    let ghost score = board.points();
    let mut total: u128 = 0;
    let mut run: usize = 0;
    while run < runs
        invariant
            g == board.grid(),
            score == board.points(),
            fits(g, score, direction),
            run <= runs,
            move_index < 4,
            total == runs_total(g, score, direction, base_seed, move_index as int, run as int),
            total <= run * 0xFFFF_FFFF,
        decreases runs - run,
    {
        let seed = base_seed ^ (move_index as u64 + 1).wrapping_mul(0x9E37_79B9_7F4A_7C15)
            ^ (run as u64 + 1).wrapping_mul(0xD1B5_4A32_D192_ED03);
        let score_of_run = play_random_game(board, direction, Random::new(seed));
        proof {
            assert((run + 1) * 0xFFFF_FFFF == run * 0xFFFF_FFFF + 0xFFFF_FFFF) by (nonlinear_arith);
            assert((run + 1) * 0xFFFF_FFFF <= 0x1_0000_0000_0000_0000 * 0xFFFF_FFFF) by (nonlinear_arith)
                requires
                    run + 1 <= 0x1_0000_0000_0000_0000,
            ;
        }
        total = total + score_of_run as u128;
        run = run + 1;
    }
    total
}

/// One turn of a random game adds a tile to the grid and leaves the rest of
/// the game to be played from the new grid.
proof fn lemma_turn(g: Grid, score: int, s: u64, d: Direction, mid: Grid, next_g: Grid, next_s: u64)
    requires
        valid_grid(g),
        available(g).len() > 0,
        d == available(g)[rng_index(s, available(g).len() as int)],
        fits(g, score, d),
        mid == moved(g, d),
        valid_grid(mid),
        (next_g, next_s) == spawn(mid, xorshift(s)),
        valid_grid(next_g),
    ensures
        grid_sum(g) < grid_sum(next_g) <= 16 * cell_max(),
        random_game(g, score, s) == random_game(next_g, score + move_gain(g, d), next_s),
{
    let moves = available(g);
    let i = rng_index(s, moves.len() as int);
    lemma_available(g);
    assert(0 <= i < moves.len());
    assert(can_slide(g, d));
    lemma_move(g, d);
    lemma_move_sum(g, d);
    lemma_empty_cells_found(mid);
    crate::board::lemma_empty_cells_zero(mid);
    let e = empty_cells(mid, 16);
    let j = rng_index(xorshift(s), e.len() as int);
    assert(0 <= j < e.len());
    let v = if rng_index(xorshift(xorshift(s)), 10) < 9 { 2int } else { 4int };
    lemma_set_cell_sum(mid, e[j].0 as int, e[j].1 as int, v);
    lemma_grid_sum_bound(next_g);
    reveal(random_game);
}

/// Plays a game from `board`: first `first_move`, then random available moves,
/// with a new tile after every move, until no move is left.
fn play_random_game(board: &Board, first_move: Direction, random: Random) -> (score: u32)
    requires
        fits(board.grid(), board.points(), first_move),
    ensures
        score == first_game(board.grid(), board.points(), first_move, random.0),
{
    let mut rng = random;
    let mut current = board.make_move(first_move);
    spawn_random_tile(&mut current, &mut rng);
    loop
        invariant
            random_game(current.grid(), current.points(), rng.0) == first_game(
                board.grid(),
                board.points(),
                first_move,
                random.0,
            ),
        decreases 16 * cell_max() - grid_sum(current.grid()),
    {
        proof {
            current.lemma_valid();
            lemma_grid_sum_bound(current.grid());
        }
        if !play_turn(&mut current, &mut rng) {
            return current.score();
        }
    }
}

/// Plays one turn of a random game: a random available move and a new tile.
/// Returns `false`, leaving the board as it is, when no move is available or
/// the drawn move's points would not fit in the score.
fn play_turn(board: &mut Board, random: &mut Random) -> (played: bool)
    ensures
        !played ==> final(board).grid() == old(board).grid() && final(board).points() == old(board).points()
            && random_game(old(board).grid(), old(board).points(), old(random).0) == old(board).points(),
        played ==> grid_sum(old(board).grid()) < grid_sum(final(board).grid()) <= 16 * cell_max(),
        played ==> random_game(old(board).grid(), old(board).points(), old(random).0) == random_game(
            final(board).grid(),
            final(board).points(),
            final(random).0,
        ),
{
    let moves = board.available_moves();
    if moves.len() == 0 {
        proof {
            reveal(random_game);
        }
        return false;
    }
    let ghost g = board.grid();
    let ghost s = random.0;
    let ghost score0 = board.points();
    let pick = random.index(moves.len());
    let direction = moves[pick];
    if !board.accepts_move(direction) {
        proof {
            reveal(random_game);
        }
        return false;
    }
    proof {
        lemma_available(g);
        board.lemma_valid();
    }
    *board = board.make_move(direction);
    let ghost mid = board.grid();
    proof {
        board.lemma_valid();
    }
    spawn_random_tile(board, random);
    proof {
        board.lemma_valid();
        lemma_turn(g, score0, s, direction, mid, board.grid(), random.0);
    }
    true
}

/// Places a random tile, `2` or `4`, in a random empty cell of the board.
fn spawn_random_tile(board: &mut Board, random: &mut Random)
    ensures
        (final(board).grid(), final(random).0) == spawn(old(board).grid(), old(random).0),
        final(board).points() == old(board).points(),
{
    let empty = board.empty_tiles();
    if empty.len() == 0 {
        return;
    }
    let (row, col) = empty[random.index(empty.len())];
    proof {
        crate::board::lemma_empty_cells_zero(old(board).grid());
    }
    // Standard 2048 distribution: 90% twos and 10% fours, as ranks.
    let rank = if random.index(10) < 9 {
        1
    } else {
        2
    };
    proof {
        reveal_with_fuel(crate::tile::two_pow, 3);
    }
    *board = board.with_rank(row, col, rank);
}

/// Hash of the board's tiles, the base of every game seed.
fn board_seed(board: &Board) -> (hash: u64)
    ensures
        hash == grid_hash(board.grid(), 16),
{
    let mut hash: u64 = 0xCBF2_9CE4_8422_2325;
    let mut row: usize = 0;
    while row < 4
        invariant
            row <= 4,
            hash == grid_hash(board.grid(), 4 * row),
        decreases 4 - row,
    {
        let mut col: usize = 0;
        while col < 4
            invariant
                row < 4,
                col <= 4,
                hash == grid_hash(board.grid(), 4 * row + col),
            decreases 4 - col,
        {
            assert((4 * row + col) / 4 == row && (4 * row + col) % 4 == col);
            hash = hash ^ (board.cell(row, col) as u64);
            hash = hash.wrapping_mul(0x100_0000_01B3);
            col = col + 1;
        }
        row = row + 1;
    }
    hash
}

/// Small self-contained generator so native and WebAssembly builds use the
/// same simulation without requiring a browser randomness API.
struct Random(u64);

impl Random {
    fn new(seed: u64) -> (r: Self)
        ensures
            r.0 == initial_state(seed),
    {
        Self(
            if seed == 0 {
                0xA076_1D64_78BD_642F
            } else {
                seed
            },
        )
    }

    fn next(&mut self) -> (value: u64)
        ensures
            final(self).0 == xorshift(old(self).0),
            value == rng_out(old(self).0),
    {
        let mut value = self.0;
        value ^= value >> 12;
        value ^= value << 25;
        value ^= value >> 27;
        self.0 = value;
        value.wrapping_mul(0x2545_F491_4F6C_DD1D)
    }

    fn index(&mut self, upper_bound: usize) -> (i: usize)
        requires
            upper_bound > 0,
        ensures
            final(self).0 == xorshift(old(self).0),
            i == rng_index(old(self).0, upper_bound as int),
            i < upper_bound,
    {
        (self.next() % upper_bound as u64) as usize
    }
}

} // verus!
