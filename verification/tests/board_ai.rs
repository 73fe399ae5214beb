use game2048::board::{Board, IBoard};
use game2048::controller::{board_shape, corner_bonus, Controller, IController};
use game2048::random_simulation::best_move;
use game2048::tile::{rank_from_value, value_from_rank, Matrix, CELL_COUNT};
use game2048::types::Direction;

#[test]
fn corner_bonus_rewards_a_largest_tile_in_a_corner() {
    let corner = Board::new(&[128, 64, 32, 16, 64, 32, 16, 8, 32, 16, 8, 4, 16, 8, 4, 2]);
    let center = Board::new(&[64, 32, 16, 8, 32, 128, 8, 4, 16, 8, 4, 2, 8, 4, 2, 4]);

    assert!(corner_bonus(&corner) > corner_bonus(&center));
}

#[test]
fn shape_rewards_merge_opportunities_and_empty_space() {
    let useful = Board::new(&[2, 2, 0, 0, 0, 0, 0, 0, 0, 0, 0, 0, 0, 0, 0, 0]);
    let crowded = Board::new(&[2, 4, 8, 16, 32, 64, 128, 256, 4, 8, 16, 32, 8, 16, 32, 64]);

    assert!(board_shape(&useful) > board_shape(&crowded));
}

#[test]
fn controller_always_runs_at_least_one_rollout() {
    let board = Board::new(&[2, 2, 0, 0, 0, 0, 0, 0, 0, 0, 0, 0, 0, 0, 0, 0]);
    let controller = Controller::new(board, 0);

    assert_eq!(controller.rollouts(), 1);
}

#[test]
fn selected_move_is_legal() {
    let board = Board::new(&[2, 2, 4, 8, 0, 4, 8, 16, 0, 0, 16, 32, 0, 0, 0, 64]);

    let direction = best_move(&board, 4);

    assert!(board.can_move(direction));
}

#[test]
fn zero_runs_still_evaluates_each_move_once() {
    let board = Board::new(&[2, 0, 0, 0, 0, 0, 0, 0, 0, 0, 0, 0, 0, 0, 0, 0]);

    assert!(board.can_move(best_move(&board, 0)));
}

#[test]
fn values_round_trip_through_compact_ranks() {
    for value in [0, 2, 4, 8, 128, 2048, 65_536] {
        let rank = rank_from_value(value);
        assert_eq!(if rank == 0 { 0 } else { value_from_rank(rank) }, value);
    }
}

#[test]
fn matrix_uses_one_byte_per_cell() {
    assert_eq!(std::mem::size_of::<Matrix>(), CELL_COUNT);
}

fn cells(board: &Board) -> Vec<u32> {
    let mut out = Vec::new();
    for row in 0..4 {
        for col in 0..4 {
            out.push(board.cell(row, col));
        }
    }
    out
}

#[test]
fn board_reads_cells_row_by_row() {
    let values: Vec<u32> = (0..16).map(|i| i * 2).collect();
    let board = Board::new(&values);
    assert_eq!(cells(&board), values);
    assert_eq!(board.score(), 0);
}

#[test]
fn merging_left_merges_each_pair_once_and_scores() {
    let board = Board::new(&[2, 2, 2, 2, 4, 0, 4, 8, 0, 0, 0, 2, 8, 8, 16, 16]);
    let moved = board.merge_left();
    assert_eq!(cells(&moved), vec![4, 4, 0, 0, 8, 8, 0, 0, 2, 0, 0, 0, 16, 32, 0, 0]);
    assert_eq!(moved.score(), 4 + 4 + 8 + 16 + 32);
}

#[test]
fn merging_right_packs_towards_the_right_wall() {
    let board = Board::new(&[2, 2, 2, 0, 0, 4, 0, 4, 0, 0, 0, 0, 2, 4, 8, 16]);
    let moved = board.merge_right();
    assert_eq!(cells(&moved), vec![0, 0, 2, 4, 0, 0, 0, 8, 0, 0, 0, 0, 2, 4, 8, 16]);
    assert_eq!(moved.score(), 12);
}

#[test]
fn merging_up_and_down_work_on_columns() {
    let board = Board::new(&[2, 0, 0, 0, 2, 0, 0, 0, 4, 0, 0, 0, 4, 0, 0, 2]);
    let up = board.merge_up();
    assert_eq!(cells(&up), vec![4, 0, 0, 2, 8, 0, 0, 0, 0, 0, 0, 0, 0, 0, 0, 0]);
    assert_eq!(up.score(), 12);
    let down = board.merge_down();
    assert_eq!(cells(&down), vec![0, 0, 0, 0, 0, 0, 0, 0, 4, 0, 0, 0, 8, 0, 0, 2]);
    assert_eq!(down.score(), 12);
}

#[test]
fn make_move_dispatches_on_the_direction() {
    let board = Board::new(&[0, 2, 0, 2, 0, 0, 0, 0, 0, 0, 0, 0, 0, 0, 0, 0]);
    assert_eq!(cells(&board.make_move(Direction::Left)), cells(&board.merge_left()));
    assert_eq!(cells(&board.make_move(Direction::Right)), cells(&board.merge_right()));
    assert_eq!(cells(&board.make_move(Direction::Up)), cells(&board.merge_up()));
    assert_eq!(cells(&board.make_move(Direction::Down)), cells(&board.merge_down()));
}

#[test]
fn a_move_changes_the_board_exactly_when_it_is_possible() {
    let boards = [
        [2, 4, 8, 16, 0, 0, 0, 0, 0, 0, 0, 0, 0, 0, 0, 0],
        [2, 4, 2, 4, 4, 2, 4, 2, 2, 4, 2, 4, 4, 2, 4, 2],
        [2, 2, 0, 0, 0, 0, 0, 4, 0, 0, 8, 0, 0, 16, 0, 0],
    ];
    for values in boards {
        let board = Board::new(&values);
        for direction in [Direction::Left, Direction::Right, Direction::Up, Direction::Down] {
            let changed = cells(&board.make_move(direction)) != cells(&board);
            assert_eq!(board.can_move(direction), changed);
        }
    }
}

#[test]
fn a_move_keeps_the_sum_of_the_tiles() {
    let board = Board::new(&[2, 2, 4, 4, 8, 0, 8, 0, 0, 2, 0, 2, 16, 16, 16, 0]);
    let before: u32 = cells(&board).iter().sum();
    for direction in [Direction::Left, Direction::Right, Direction::Up, Direction::Down] {
        let after: u32 = cells(&board.make_move(direction)).iter().sum();
        assert_eq!(after, before);
    }
}

#[test]
fn available_moves_are_listed_up_down_left_right() {
    let board = Board::new(&[0, 0, 0, 0, 0, 2, 0, 0, 0, 0, 0, 0, 0, 0, 0, 0]);
    assert_eq!(
        board.available_moves(),
        vec![Direction::Up, Direction::Down, Direction::Left, Direction::Right]
    );
    let corner = Board::new(&[2, 4, 0, 0, 0, 0, 0, 0, 0, 0, 0, 0, 0, 0, 0, 0]);
    assert_eq!(corner.available_moves(), vec![Direction::Down, Direction::Right]);
    let full = Board::new(&[2, 4, 2, 4, 4, 2, 4, 2, 2, 4, 2, 4, 4, 2, 4, 2]);
    assert!(full.available_moves().is_empty());
}

#[test]
fn empty_tiles_are_listed_row_by_row() {
    let board = Board::new(&[2, 0, 2, 2, 2, 2, 2, 2, 0, 2, 2, 2, 2, 2, 2, 0]);
    assert_eq!(board.empty_tiles(), vec![(0, 1), (2, 0), (3, 3)]);
}

#[test]
fn a_move_whose_score_overflows_is_refused() {
    let board = Board::new(&[0x8000_0000, 0x8000_0000, 0, 0, 0, 0, 0, 0, 0, 0, 0, 0, 0, 0, 0, 0]);
    assert!(board.can_move(Direction::Left));
    assert!(!board.accepts_move(Direction::Left));
    assert!(board.accepts_move(Direction::Down));
    assert_eq!(board.playable_moves(), vec![Direction::Down]);
}

#[test]
fn set_empty_tile_fills_the_first_empty_cell() {
    let mut board = Board::new(&[2, 4, 0, 8, 0, 0, 0, 0, 0, 0, 0, 0, 0, 0, 0, 0]);
    board.set_empty_tile();
    assert_eq!(cells(&board)[..4].to_vec(), vec![2, 4, 2, 8]);
    let mut full = Board::new(&[2, 4, 2, 4, 4, 2, 4, 2, 2, 4, 2, 4, 4, 2, 4, 2]);
    let before = cells(&full);
    full.set_empty_tile();
    assert_eq!(cells(&full), before);
}

#[test]
fn with_rank_places_the_value_of_the_rank() {
    let board = Board::new(&[0; 16]);
    assert_eq!(board.with_rank(1, 2, 1).cell(1, 2), 2);
    assert_eq!(board.with_rank(3, 3, 2).cell(3, 3), 4);
    assert_eq!(board.with_rank(0, 0, 40).cell(0, 0), u32::MAX);
}

#[test]
fn ranks_and_values_of_tiles() {
    assert_eq!(rank_from_value(0), 0);
    assert_eq!(rank_from_value(2), 1);
    assert_eq!(rank_from_value(2048), 11);
    assert_eq!(rank_from_value(0x8000_0000), 31);
    assert_eq!(value_from_rank(0), 1);
    assert_eq!(value_from_rank(11), 2048);
    assert_eq!(value_from_rank(31), 0x8000_0000);
    assert_eq!(value_from_rank(32), u32::MAX);
}
