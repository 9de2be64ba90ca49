use terminal_2048::game::board::Direction;
use terminal_2048::game::logic::GameLogic;

fn game_with(board: [[u16; 4]; 4]) -> GameLogic {
    let mut game = GameLogic::new();
    game.board = board;
    game.score = 0;
    game.won = false;
    game.game_over = false;
    game
}

fn tiles(game: &GameLogic) -> Vec<u16> {
    let mut out = Vec::new();
    for r in 0..4 {
        for c in 0..4 {
            if game.board[r][c] != 0 {
                out.push(game.board[r][c]);
            }
        }
    }
    out
}

#[test]
fn three_equal_tiles_merge_only_the_first_pair() {
    let mut game = game_with([[2, 2, 2, 0], [0; 4], [0; 4], [0; 4]]);
    assert!(game.move_left());
    assert_eq!(game.board[0], [4, 2, 0, 0]);
    assert_eq!(game.score, 4);
}

#[test]
fn two_pairs_merge_separately() {
    let mut game = game_with([[2, 2, 4, 4], [0; 4], [0; 4], [0; 4]]);
    assert!(game.move_left());
    assert_eq!(game.board[0], [4, 8, 0, 0]);
    assert_eq!(game.score, 4 + 8);
}

#[test]
fn packed_distinct_rows_do_not_move() {
    let board = [[2, 4, 8, 16], [4, 8, 16, 32], [2, 4, 0, 0], [8, 0, 0, 0]];
    let mut game = game_with(board);
    assert!(!game.move_left());
    assert_eq!(game.board, board);
    assert!(!game.move_left());
    assert_eq!(game.board, board);
    assert_eq!(game.score, 0);
}

#[test]
fn left_then_right_is_not_an_inverse() {
    let board = [[2, 2, 0, 0], [0; 4], [0; 4], [0; 4]];
    let mut game = game_with(board);
    assert!(game.move_left());
    assert!(game.move_right());
    assert_eq!(game.board[0], [0, 0, 0, 4]);
    assert_ne!(game.board, board);
}

#[test]
fn up_is_left_on_the_transposed_board() {
    let board = [[2, 4, 8, 2], [2, 4, 8, 2], [0, 0, 0, 4], [0, 0, 0, 4]];
    let mut up = game_with(board);
    assert!(up.move_up());
    let mut transposed = [[0u16; 4]; 4];
    for r in 0..4 {
        for c in 0..4 {
            transposed[r][c] = board[c][r];
        }
    }
    let mut left = game_with(transposed);
    assert!(left.move_left());
    for r in 0..4 {
        for c in 0..4 {
            assert_eq!(up.board[r][c], left.board[c][r]);
        }
    }
    assert_eq!(up.score, left.score);
    assert_eq!(up.board[0], [4, 8, 16, 4]);
    assert_eq!(up.board[1], [0, 0, 0, 8]);
}

#[test]
fn down_merges_from_the_bottom() {
    let mut game = game_with([[2, 0, 0, 0], [2, 0, 0, 0], [2, 0, 0, 0], [0; 4]]);
    assert!(game.move_down());
    assert_eq!(game.board, [[0; 4], [0; 4], [2, 0, 0, 0], [4, 0, 0, 0]]);
    assert_eq!(game.score, 4);
}

#[test]
fn winning_stays_won() {
    let mut game = game_with([[1024, 1024, 0, 0], [2, 0, 0, 0], [0; 4], [0; 4]]);
    assert!(game.move_left());
    assert!(game.won);
    assert!(game.move_right());
    assert!(game.won);
    assert!(game.move_down());
    assert!(game.won);
}

#[test]
fn a_passing_winning_tile_does_not_win() {
    let mut game = game_with([[0, 2048, 0, 0], [0; 4], [0; 4], [0; 4]]);
    assert!(game.move_left());
    assert!(!game.won);
    assert_eq!(game.score, 0);
}

#[test]
fn finished_game_ignores_moves() {
    let board = [[2, 2, 0, 0], [0; 4], [0; 4], [0; 4]];
    let mut game = game_with(board);
    game.game_over = true;
    assert!(!game.move_left());
    assert!(!game.move_right());
    assert!(!game.move_up());
    assert!(!game.move_down());
    assert_eq!(game.board, board);
    assert_eq!(game.score, 0);
}

#[test]
fn can_move_on_one_empty_cell_or_one_pair() {
    let mut game = game_with([[2, 4, 2, 4], [4, 2, 4, 2], [2, 4, 2, 4], [4, 2, 4, 0]]);
    assert!(game.can_move());
    game.board = [[2, 4, 2, 4], [4, 2, 4, 2], [2, 4, 2, 4], [4, 2, 4, 4]];
    assert!(game.can_move());
    game.board = [[2, 4, 2, 4], [4, 2, 4, 2], [2, 4, 2, 4], [4, 2, 4, 2]];
    assert!(!game.can_move());
    game.board = [[2, 4, 2, 4], [4, 2, 4, 2], [2, 4, 2, 2], [4, 2, 4, 2]];
    assert!(game.can_move());
}

#[test]
fn new_game_has_two_small_tiles() {
    for _ in 0..50 {
        let game = GameLogic::new();
        let t = tiles(&game);
        assert_eq!(t.len(), 2);
        assert!(t.iter().all(|&v| v == 2 || v == 4));
        assert_eq!(game.score, 0);
        assert!(!game.won);
        assert!(!game.game_over);
    }
}

#[test]
fn place_tile_fills_the_chosen_empty_cell() {
    let mut game = game_with([[2, 0, 4, 0], [8, 8, 8, 8], [0, 2, 2, 2], [2, 2, 2, 2]]);
    game.place_tile(1, 0);
    assert_eq!(game.board[0], [2, 0, 4, 2]);
    game.place_tile(1, 9);
    assert_eq!(game.board[2], [4, 2, 2, 2]);
    game.place_tile(0, 9);
    assert_eq!(game.board[0], [2, 4, 4, 2]);
    let before = game.board;
    game.place_tile(0, 0);
    assert_eq!(game.board, before);
}

#[test]
fn place_tile_beyond_the_empty_cells_does_nothing() {
    let board = [[2, 0, 4, 0], [8, 8, 8, 8], [0, 2, 2, 2], [2, 2, 2, 2]];
    let mut game = game_with(board);
    game.place_tile(3, 0);
    assert_eq!(game.board, board);
}

#[test]
fn random_tile_goes_to_the_only_empty_cell() {
    for _ in 0..20 {
        let mut game = game_with([[2, 4, 2, 4], [4, 2, 4, 2], [2, 4, 0, 4], [4, 2, 4, 2]]);
        game.add_random_tile();
        assert!(game.board[2][2] == 2 || game.board[2][2] == 4);
        assert_eq!(tiles(&game).len(), 16);
    }
}

#[test]
fn random_tile_on_a_full_board_does_nothing() {
    let board = [[2, 4, 2, 4], [4, 2, 4, 2], [2, 4, 2, 4], [4, 2, 4, 2]];
    let mut game = game_with(board);
    game.add_random_tile();
    assert_eq!(game.board, board);
}

#[test]
fn fits_rejects_an_overflowing_merge() {
    let mut game = game_with([[32768, 32768, 0, 0], [0; 4], [0; 4], [0; 4]]);
    assert!(!game.fits(Direction::Left));
    assert!(!game.fits(Direction::Right));
    assert!(game.fits(Direction::Up));
    assert!(game.fits(Direction::Down));
    game.board = [[2, 2, 0, 0], [0; 4], [0; 4], [0; 4]];
    game.score = u32::MAX - 3;
    assert!(!game.fits(Direction::Left));
    game.score = u32::MAX - 4;
    assert!(game.fits(Direction::Left));
}

#[test]
fn moves_never_add_tiles_and_keep_powers_of_two() {
    let mut game = game_with([[2, 2, 4, 4], [8, 0, 8, 16], [2, 2, 2, 2], [0, 4, 0, 4]]);
    let before = tiles(&game).len();
    assert_eq!(before, 13);
    assert!(game.move_left());
    assert_eq!(tiles(&game).len(), 7);
    assert_eq!(game.board, [[4, 8, 0, 0], [16, 16, 0, 0], [4, 4, 0, 0], [8, 0, 0, 0]]);
    game.add_random_tile();
    assert_eq!(tiles(&game).len(), 8);
    for d in [Direction::Up, Direction::Right, Direction::Down, Direction::Left] {
        let count = tiles(&game).len();
        let moved = match d {
            Direction::Up => game.move_up(),
            Direction::Down => game.move_down(),
            Direction::Left => game.move_left(),
            Direction::Right => game.move_right(),
        };
        assert!(tiles(&game).len() <= count);
        if moved {
            let after = tiles(&game).len();
            game.add_random_tile();
            assert_eq!(tiles(&game).len(), after + 1);
        }
        assert!(tiles(&game).iter().all(|v| v.is_power_of_two() && *v >= 2));
    }
}
