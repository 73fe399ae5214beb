use game2048::game_2048::{merge_line, Direction, Game};
use game2048::board::{Board, IBoard};
use game2048::types;
use game2048::god::{
    is_valid_population_size, rotating_holdout_seeds, selection_counts, validation_seeds,
    HOLDOUT_GAMES_PER_BATCH,
};

#[test]
fn new_game_starts_with_two_valid_tiles() {
    let game = Game::new();
    let tiles: Vec<u32> = game
        .board()
        .iter()
        .flatten()
        .copied()
        .filter(|tile| *tile != 0)
        .collect();

    assert_eq!(tiles.len(), 2);
    assert!(tiles.iter().all(|tile| *tile == 2 || *tile == 4));
}

#[test]
fn move_merges_each_pair_only_once() {
    let mut game = Game::from_board([[2, 2, 2, 2], [0; 4], [0; 4], [0; 4]]);

    assert!(game.apply_move(Direction::Left));
    assert_eq!(game.board()[0], [4, 4, 0, 0]);
    assert_eq!(game.score(), 8);
}

#[test]
fn blocked_move_does_not_change_the_game() {
    let mut game = Game::from_board([[2, 4, 8, 16], [0; 4], [0; 4], [0; 4]]);
    let before = game.clone();

    assert!(!game.make_move(Direction::Left));
    assert_eq!(game, before);
}

#[test]
fn detects_a_finished_game() {
    let game = Game::from_board([[2, 4, 2, 4], [4, 2, 4, 2], [2, 4, 2, 4], [4, 2, 4, 2]]);

    assert!(game.is_game_over());
    assert!(game.available_moves().is_empty());
}

#[test]
fn equal_seeds_create_equal_games() {
    assert_eq!(Game::from_seed(42), Game::from_seed(42));
    assert_ne!(Game::from_seed(42), Game::from_seed(43));
}

#[test]
fn rotating_holdouts_are_repeatable_and_change_each_generation() {
    let first: Vec<_> = rotating_holdout_seeds(7, 1);
    let repeated: Vec<_> = rotating_holdout_seeds(7, 1);
    let next: Vec<_> = rotating_holdout_seeds(8, 1);

    assert_eq!(first, repeated);
    assert_ne!(first, next);
    assert_eq!(first.len(), HOLDOUT_GAMES_PER_BATCH);
}

#[test]
fn seeded_games_start_with_two_tiles_of_two_or_four() {
    for seed in [0u64, 1, 42, 43, 0xFFFF_FFFF_FFFF_FFFF, 123_456_789] {
        let game = Game::from_seed(seed);
        let tiles: Vec<u32> = game.flattened_board().iter().copied().filter(|t| *t != 0).collect();
        assert_eq!(tiles.len(), 2);
        assert!(tiles.iter().all(|t| *t == 2 || *t == 4));
        assert_eq!(game.score(), 0);
        assert_eq!(game.empty_tiles().len(), 14);
    }
}

#[test]
fn a_legal_move_adds_exactly_one_tile() {
    let mut game = Game::from_board([[2, 2, 0, 0], [0; 4], [0; 4], [0; 4]]);
    assert!(game.make_move(Direction::Left));
    let tiles: Vec<u32> = game.flattened_board().iter().copied().filter(|t| *t != 0).collect();
    assert_eq!(tiles.len(), 2);
    assert_eq!(game.board()[0][0], 4);
    assert_eq!(game.score(), 4);
}

#[test]
fn moves_in_every_direction() {
    let start = [[0, 2, 0, 2], [0, 0, 0, 0], [4, 0, 0, 0], [4, 0, 0, 8]];
    let mut left = Game::from_board(start);
    assert!(left.apply_move(Direction::Left));
    assert_eq!(*left.board(), [[4, 0, 0, 0], [0; 4], [4, 0, 0, 0], [4, 8, 0, 0]]);
    let mut right = Game::from_board(start);
    assert!(right.apply_move(Direction::Right));
    assert_eq!(*right.board(), [[0, 0, 0, 4], [0; 4], [0, 0, 0, 4], [0, 0, 4, 8]]);
    let mut up = Game::from_board(start);
    assert!(up.apply_move(Direction::Up));
    assert_eq!(*up.board(), [[8, 2, 0, 2], [0, 0, 0, 8], [0; 4], [0; 4]]);
    assert_eq!(up.score(), 8);
    let mut down = Game::from_board(start);
    assert!(down.apply_move(Direction::Down));
    assert_eq!(*down.board(), [[0; 4], [0; 4], [0, 0, 0, 2], [8, 2, 0, 8]]);
}

#[test]
fn available_moves_follow_up_right_down_left() {
    let game = Game::from_board([[0, 0, 0, 0], [0, 2, 0, 0], [0; 4], [0; 4]]);
    assert_eq!(
        game.available_moves(),
        vec![Direction::Up, Direction::Right, Direction::Down, Direction::Left]
    );
    let corner = Game::from_board([[2, 4, 0, 0], [0; 4], [0; 4], [0; 4]]);
    assert_eq!(corner.available_moves(), vec![Direction::Right, Direction::Down]);
    assert!(corner.can_move(Direction::Right));
    assert!(!corner.can_move(Direction::Up));
}

#[test]
fn merging_saturates_at_the_largest_tile() {
    let (line, gained) = merge_line([u32::MAX, u32::MAX, 0x8000_0000, 0x8000_0000]);
    assert_eq!(line, [u32::MAX, u32::MAX, 0, 0]);
    assert_eq!(gained, u32::MAX);
    let (line, gained) = merge_line([0, 2, 2, 2]);
    assert_eq!(line, [4, 2, 0, 0]);
    assert_eq!(gained, 4);
}

#[test]
fn flattened_board_reads_row_by_row() {
    let game = Game::from_board([[1, 2, 3, 4], [5, 6, 7, 8], [9, 10, 11, 12], [13, 14, 15, 16]]);
    let flat = game.flattened_board();
    assert_eq!(flat.to_vec(), (1..=16).collect::<Vec<u32>>());
}

#[test]
fn validation_seeds_follow_the_congruential_generator() {
    let seeds = validation_seeds();
    let mut state = 0x0002_048A_11CE_5EED_u64;
    for seed in seeds {
        state = state
            .wrapping_mul(6_364_136_223_846_793_005)
            .wrapping_add(1_442_695_040_888_963_407);
        assert_eq!(seed, state);
    }
    assert_eq!(seeds.len(), 50);
}

#[test]
fn holdout_seeds_depend_on_the_batch() {
    assert_ne!(rotating_holdout_seeds(7, 1), rotating_holdout_seeds(7, 2));
    let seeds = rotating_holdout_seeds(0, 0);
    let mut state = 0x2048_CAFE_BABE_5EED_u64;
    for seed in seeds {
        state = state.wrapping_add(0x9E37_79B9_7F4A_7C15);
        let mut value = state;
        value = (value ^ (value >> 30)).wrapping_mul(0xBF58_476D_1CE4_E5B9);
        value = (value ^ (value >> 27)).wrapping_mul(0x94D0_49BB_1331_11EB);
        assert_eq!(seed, value ^ (value >> 31));
    }
}

#[test]
fn the_game_and_the_board_move_alike() {
    let rows = [[2, 2, 4, 0], [0, 4, 4, 8], [16, 0, 16, 2], [2, 2, 2, 2]];
    let flat: Vec<u32> = rows.iter().flatten().copied().collect();
    let pairs = [
        (Direction::Up, types::Direction::Up),
        (Direction::Right, types::Direction::Right),
        (Direction::Down, types::Direction::Down),
        (Direction::Left, types::Direction::Left),
    ];
    for (game_direction, board_direction) in pairs {
        let mut game = Game::from_board(rows);
        game.apply_move(game_direction);
        let board = Board::new(&flat).make_move(board_direction);
        let board_cells: Vec<u32> = (0..16).map(|i| board.cell(i / 4, i % 4)).collect();
        assert_eq!(game.flattened_board().to_vec(), board_cells);
        assert_eq!(game.score(), board.score());
    }
}

#[test]
fn population_sizes_are_multiples_of_five_from_five_on() {
    for size in [0, 1, 4, 6, 7, 12, 99] {
        assert!(!is_valid_population_size(size));
    }
    for size in [5, 10, 50, 100, 1000] {
        assert!(is_valid_population_size(size));
    }
}

#[test]
fn selection_keeps_the_population_size() {
    let small = selection_counts(5);
    assert_eq!((small.finalists, small.elites, small.children, small.immigrants), (1, 1, 3, 1));
    let fifty = selection_counts(50);
    assert_eq!((fifty.finalists, fifty.elites, fifty.children, fifty.immigrants), (10, 3, 44, 3));
    let hundred = selection_counts(100);
    assert_eq!((hundred.finalists, hundred.elites, hundred.children, hundred.immigrants), (20, 5, 90, 5));
    for size in (5..=500).step_by(5) {
        let counts = selection_counts(size);
        assert_eq!(counts.elites + counts.children + counts.immigrants, size);
    }
}
