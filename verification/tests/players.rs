use game2048::board::{Board, IBoard};
use game2048::controller::{Controller, IController};
use game2048::expectimax::{self, expectimax};
use game2048::game_2048::{self, Game};
use game2048::player::{self, order_key, play_turn, TurnOutcome};
use game2048::types::Direction;
use game2048::{
    board_to_play, direction_code, next_move_depth, next_move_random_simulation,
    next_move_random_simulation_with_runs, trained_model,
};

#[test]
fn direction_codes_follow_the_host_contract() {
    assert_eq!(direction_code(Direction::Up), 0);
    assert_eq!(direction_code(Direction::Right), 1);
    assert_eq!(direction_code(Direction::Down), 2);
    assert_eq!(direction_code(Direction::Left), 3);
}

#[test]
fn wrong_cell_counts_and_finished_boards_get_minus_one() {
    assert_eq!(next_move_depth(&[2, 2], 1), -1);
    assert_eq!(next_move_random_simulation(&[0; 15]), -1);
    let finished = [2, 4, 2, 4, 4, 2, 4, 2, 2, 4, 2, 4, 4, 2, 4, 2];
    assert_eq!(next_move_depth(&finished, 1), -1);
    assert_eq!(next_move_random_simulation_with_runs(&finished, 3), -1);
    assert!(board_to_play(&finished).is_none());
    assert!(board_to_play(&[0; 17]).is_none());
}

#[test]
fn the_only_move_is_chosen() {
    // Only a move to the left changes this board.
    let cells = [0, 2, 4, 8, 0, 4, 8, 16, 0, 8, 16, 32, 0, 16, 32, 64];
    assert_eq!(next_move_depth(&cells, 2), 3);
    assert_eq!(next_move_random_simulation_with_runs(&cells, 2), 3);
    assert_eq!(next_move_random_simulation(&cells), 3);
}

#[test]
fn chosen_moves_are_legal() {
    let cells = [2, 2, 4, 8, 0, 4, 8, 16, 0, 0, 16, 32, 0, 0, 0, 64];
    let board = Board::new(&cells);
    let legal: Vec<i8> = board.available_moves().into_iter().map(direction_code).collect();
    assert!(legal.contains(&next_move_depth(&cells, 1)));
    assert!(legal.contains(&next_move_random_simulation_with_runs(&cells, 5)));
}

#[test]
fn simulation_scores_a_finished_board_as_it_stands() {
    let board = Board::new(&[2, 4, 2, 4, 4, 2, 4, 2, 2, 4, 2, 4, 4, 2, 4, 2]);
    let controller = Controller::new(Board::new(&[2, 2, 0, 0, 0, 0, 0, 0, 0, 0, 0, 0, 0, 0, 0, 0]), 3);
    assert_eq!(controller.simulate(board), 0);
    assert_eq!(controller.rollouts(), 3);
}

#[test]
fn rollouts_end_with_at_least_the_score_of_the_first_merge() {
    let controller = Controller::new(Board::new(&[2, 2, 0, 0, 0, 0, 0, 0, 0, 0, 0, 0, 0, 0, 0, 0]), 1);
    let board = Board::new(&[2, 2, 0, 0, 0, 0, 0, 0, 0, 0, 0, 0, 0, 0, 0, 0]).merge_left();
    assert!(controller.simulate(board) >= 4);
    let choice = controller.run_simulation();
    assert!(Board::new(&[2, 2, 0, 0, 0, 0, 0, 0, 0, 0, 0, 0, 0, 0, 0, 0]).can_move(choice));
}

#[test]
fn trained_model_takes_the_strongest_legal_output() {
    // Only Down and Right are legal here.
    let board = Board::new(&[2, 4, 0, 0, 0, 0, 0, 0, 0, 0, 0, 0, 0, 0, 0, 0]);
    // Up is strongest but illegal; Down beats Right.
    assert_eq!(trained_model::best_move(&board, [9, 3, 5, 8]), Direction::Down);
    // Equal keys: the later direction wins.
    assert_eq!(trained_model::best_move(&board, [0, 5, 5, 0]), Direction::Down);
    assert_eq!(trained_model::best_move(&board, [0, 7, 5, 0]), Direction::Right);
}

#[test]
fn trained_model_returns_a_legal_move() {
    let board = Board::new(&[2, 4, 8, 16, 0, 0, 0, 0, 0, 0, 0, 0, 0, 0, 0, 0]);
    // Whatever the network prefers, the chosen move is legal.
    for keys in [[9, 1, 0, 7], [0, 0, 0, 0], [1, 2, 3, 4], [u32::MAX, u32::MAX, 0, u32::MAX]] {
        let direction = trained_model::best_move(&board, keys);
        assert!(board.can_move(direction));
        assert_eq!(direction, Direction::Down);
    }
}

#[test]
fn expectimax_values_count_the_points_ahead() {
    let board = Board::new(&[2, 2, 0, 0, 0, 0, 0, 0, 0, 0, 0, 0, 0, 0, 0, 0]);
    assert_eq!(expectimax(&board, 0), 0);
    // One move deep: the merge of the two 2s.
    assert_eq!(expectimax(&board, 1), 4);
    // Two moves deep: 4 points now, then a 4 landing in line with the new 4
    // (six cells of fifteen, one time in ten) is worth 8 more; the average
    // 648 / 150 rounds down to 4.
    assert_eq!(expectimax(&board, 2), 4);
}

#[test]
fn expectimax_depth_changes_the_choice() {
    let cells = [2, 2, 0, 0, 0, 0, 0, 0, 0, 0, 0, 0, 0, 0, 0, 0];
    // One move deep only the merge scores: Left comes before Right.
    assert_eq!(next_move_depth(&cells, 1), 3);
    assert_eq!(next_move_depth(&cells, 0), 3);
    // Two moves deep Down, Left and Right are all worth 4; Down comes first.
    assert_eq!(next_move_depth(&cells, 2), 2);
    let board = Board::new(&cells);
    assert_eq!(expectimax::best_move(&board, 2), Direction::Down);
}

#[test]
fn highest_output_is_selected_even_when_the_move_is_illegal() {
    let output: [f32; 4] = [0.0, 0.0, 0.5, 1.0];
    let keys = output.map(|value| order_key(value.to_bits()));

    assert_eq!(player::best_move(keys), game_2048::Direction::Left);
}

#[test]
fn order_keys_follow_the_order_of_the_outputs() {
    let values: [f32; 7] = [f32::NEG_INFINITY, -2.5, -1.0, -0.0, 0.0, 0.5, f32::INFINITY];
    for pair in values.windows(2) {
        assert!(order_key(pair[0].to_bits()) < order_key(pair[1].to_bits()));
    }
    // Equal outputs: the later direction wins.
    assert_eq!(player::best_move([3, 3, 3, 3]), game_2048::Direction::Left);
    assert_eq!(player::best_move([7, 7, 1, 1]), game_2048::Direction::Right);
    assert_eq!(player::best_move([9, 1, 2, 3]), game_2048::Direction::Up);
}

#[test]
fn a_turn_makes_the_strongest_move_or_stops() {
    // Only Down and Right change this board.
    let mut game = Game::from_board([[2, 4, 0, 0], [0, 0, 0, 0], [0, 0, 0, 0], [0, 0, 0, 0]]);
    // Up is strongest and refused: nothing changes.
    assert_eq!(play_turn(&mut game, [9, 1, 1, 1]), TurnOutcome::Refused);
    assert_eq!(game.board(), &[[2, 4, 0, 0], [0, 0, 0, 0], [0, 0, 0, 0], [0, 0, 0, 0]]);
    // Down is strongest and made: the tiles move down and a tile is added.
    assert_eq!(play_turn(&mut game, [1, 1, 9, 1]), TurnOutcome::Moved);
    assert_eq!(game.board()[3][0], 2);
    assert_eq!(game.board()[3][1], 4);
    assert_eq!(game.empty_tiles().len(), 13);
    // A finished game takes no turn.
    let mut finished = Game::from_board([[2, 4, 2, 4], [4, 2, 4, 2], [2, 4, 2, 4], [4, 2, 4, 2]]);
    assert_eq!(play_turn(&mut finished, [1, 2, 3, 4]), TurnOutcome::GameOver);
}

#[test]
fn game_can_move_agrees_with_make_move_on_a_copy() {
    let boards = [
        [[2, 4, 0, 0], [0, 0, 0, 0], [0, 0, 0, 0], [0, 0, 0, 0]],
        [[2, 2, 4, 8], [0, 4, 8, 16], [0, 0, 16, 32], [0, 0, 0, 64]],
        [[2, 4, 2, 4], [4, 2, 4, 2], [2, 4, 2, 4], [4, 2, 4, 2]],
    ];
    let directions = [
        game_2048::Direction::Up,
        game_2048::Direction::Right,
        game_2048::Direction::Down,
        game_2048::Direction::Left,
    ];
    for board in boards {
        let game = Game::from_board(board);
        for direction in directions {
            let mut copy = game.clone();
            assert_eq!(game.can_move(direction), copy.make_move(direction));
            assert_eq!(game.board(), &board);
        }
    }
}

#[test]
fn a_move_right_mirrors_a_move_left() {
    let cells = [2, 2, 4, 0, 0, 4, 4, 4, 8, 0, 8, 2, 2, 4, 8, 16];
    let mut mirrored = cells;
    for row in 0..4 {
        for col in 0..4 {
            mirrored[row * 4 + col] = cells[row * 4 + 3 - col];
        }
    }
    let right = Board::new(&cells).merge_right();
    let left = Board::new(&mirrored).merge_left();
    for row in 0..4 {
        for col in 0..4 {
            assert_eq!(right.cell(row, col), left.cell(row, 3 - col));
        }
    }
    assert_eq!(right.score(), left.score());
    assert_eq!(right.score(), 4 + 8 + 16);
}
