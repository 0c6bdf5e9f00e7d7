use tetris_core::block::{Block, BlockType};
use tetris_core::board::{get_score, Board, Input, Pos};
use tetris_core::game::Game;

fn locked_count(board: &Board) -> usize {
    let mut count = 0;
    for y in 0..board.height() as usize {
        for x in 0..board.width() as usize {
            if board.cell(x, y) {
                count += 1;
            }
        }
    }
    count
}

#[test]
fn collision_against_walls_and_floor() {
    let board = Board::with_block(10, 20, BlockType::I);
    let block = board.active_block();
    // The I piece occupies column 1 of its box, rows 0 to 3.
    assert!(!board.check_collision(&block, Pos { x: 5, y: 0 }));
    assert!(board.check_collision(&block, Pos { x: -2, y: 0 }));
    assert!(!board.check_collision(&block, Pos { x: -1, y: 0 }));
    assert!(board.check_collision(&block, Pos { x: 9, y: 0 }));
    assert!(!board.check_collision(&block, Pos { x: 8, y: 0 }));
    assert!(!board.check_collision(&block, Pos { x: 5, y: 16 }));
    assert!(board.check_collision(&block, Pos { x: 5, y: 17 }));
}

#[test]
fn collision_against_locked_cell() {
    let mut board = Board::with_block(10, 20, BlockType::I);
    let block = board.active_block();
    assert!(!board.check_collision(&block, Pos { x: 4, y: 8 }));
    board.set_cell(5, 10, true);
    // Rows 8 to 11 of the piece's column 5 now include the locked cell.
    assert!(board.check_collision(&block, Pos { x: 4, y: 8 }));
    assert!(!board.check_collision(&block, Pos { x: 5, y: 8 }));
}

#[test]
fn lock_without_clear_keeps_score() {
    let mut board = Board::with_block(10, 20, BlockType::Square);
    // The square occupies rows 1 and 2, so it falls 17 rows and the 18th
    // step locks it against the floor.
    for _ in 0..18 {
        let over = board.step();
        assert!(!over);
    }
    assert_eq!(locked_count(&board), 4);
    assert_eq!(board.score, 0);
}

#[test]
fn falling_l_piece_locks_after_twenty_steps() {
    let mut board = Board::with_block(10, 20, BlockType::L);
    assert_eq!(board.block_position(), Pos { x: 5, y: 0 });
    for _ in 0..17 {
        let over = board.step();
        assert!(!over);
    }
    // The piece hit the floor and locked; a fresh piece sits at the top row.
    assert_eq!(locked_count(&board), 4);
    assert_eq!(board.score, 0);
    assert_eq!(board.block_position().y, 0);
    for _ in 0..3 {
        let over = board.step();
        assert!(!over);
    }
    assert_eq!(locked_count(&board), 4);
    assert_eq!(board.score, 0);
}

#[test]
fn single_line_clear_scores_forty() {
    let mut board = Board::with_block(10, 20, BlockType::I);
    for x in 0..9 {
        board.set_cell(x, 19, true);
    }
    // Mark a cell one row above the gap to watch it shift down.
    board.set_cell(0, 18, true);
    // Walk the piece so its column lands on the open column 9.
    for _ in 0..3 {
        board.input(Input::Right);
    }
    assert_eq!(board.block_position().x, 8);
    for _ in 0..17 {
        board.step();
    }
    // The bottom row filled and cleared; everything above shifted down.
    assert_eq!(board.score, 40);
    assert!(board.cell(0, 19));
    assert!(board.cell(9, 19));
    assert!(!board.cell(1, 19));
    assert!(!board.cell(0, 18));
}

#[test]
fn four_line_clear_scores_under_tetris_base() {
    let mut board = Board::with_block(10, 20, BlockType::I);
    for y in 16..20 {
        for x in 0..9 {
            board.set_cell(x, y, true);
        }
    }
    for _ in 0..3 {
        board.input(Input::Right);
    }
    for _ in 0..17 {
        board.step();
    }
    // Four rows cleared at once: line values 4, 3, 2, 1 under base 1200,
    // the bottom row contributing 1200 * 1.
    assert_eq!(board.score, 1200 * (4 + 3 + 2 + 1));
    assert_eq!(locked_count(&board), 0);
}

#[test]
fn blocked_spawn_reports_game_over() {
    let mut board = Board::with_block(10, 20, BlockType::L);
    for y in 0..2 {
        for x in 0..10 {
            board.set_cell(x, y, true);
        }
    }
    let before = locked_count(&board);
    let over = board.spawn(Block::new(BlockType::T));
    assert!(over);
    // The failed spawn mutated nothing in the grid and earned nothing.
    assert_eq!(locked_count(&board), before);
    assert_eq!(board.score, 0);
    for x in 0..10 {
        assert!(board.cell(x, 0));
        assert!(board.cell(x, 1));
    }
}

#[test]
fn wall_kick_shifts_rotation_back_onto_field() {
    let mut board = Board::with_block(10, 20, BlockType::I);
    for _ in 0..6 {
        board.input(Input::Left);
    }
    assert_eq!(board.block_position().x, -1);
    board.input(Input::Rotate);
    // The horizontal I would stick out at x = -1; the kick commits it at
    // x = 0 instead.
    assert_eq!(board.block_position().x, 0);
    assert_eq!(
        board.active_block().cells,
        [
            [false, false, false, false],
            [true, true, true, true],
            [false, false, false, false],
            [false, false, false, false],
        ]
    );
}

#[test]
fn rejected_moves_leave_board_unchanged() {
    let mut board = Board::with_block(10, 20, BlockType::Square);
    for _ in 0..20 {
        board.input(Input::Left);
    }
    // The square occupies columns 1 and 2, so x = -1 puts it at the wall.
    assert_eq!(board.block_position().x, -1);
    let before = board.block_position();
    board.input(Input::Left);
    assert_eq!(board.block_position(), before);
    board.input(Input::Up);
    assert_eq!(board.block_position(), before);
}

#[test]
fn down_input_locks_like_a_tick() {
    let mut board = Board::with_block(10, 20, BlockType::Square);
    for _ in 0..18 {
        board.input(Input::Down);
    }
    assert_eq!(locked_count(&board), 4);
    assert_eq!(board.score, 0);
    assert_eq!(board.block_position().y, 0);
}

#[test]
fn smallest_field_reports_game_over_quickly() {
    // On a 5 by 4 field the square drops one row, locks against the floor,
    // and the next spawn lands on the locked cells at once.
    let mut board = Board::with_block(5, 4, BlockType::Square);
    assert!(!board.step());
    assert!(board.step());
    assert_eq!(locked_count(&board), 4);
}

#[test]
fn score_table_values() {
    assert_eq!(get_score(1, 0), 0);
    assert_eq!(get_score(1, 1), 40);
    assert_eq!(get_score(2, 1), 80);
    assert_eq!(get_score(1, 2), 100);
    assert_eq!(get_score(1, 3), 300);
    assert_eq!(get_score(1, 4), 1200);
    assert_eq!(get_score(3, 4), 3600);
}

#[test]
fn cell_round_trip() {
    let mut board = Board::with_block(10, 20, BlockType::T);
    assert!(!board.cell(7, 13));
    board.set_cell(7, 13, true);
    assert!(board.cell(7, 13));
    board.set_cell(7, 13, false);
    assert!(!board.cell(7, 13));
}

#[test]
fn fresh_board_uses_real_randomness() {
    let board = Board::new(10, 20);
    assert_eq!(board.width(), 10);
    assert_eq!(board.height(), 20);
    assert_eq!(board.score, 0);
    assert_eq!(locked_count(&board), 0);
    assert_eq!(board.block_position(), Pos { x: 5, y: 0 });
}

#[test]
fn game_confirm_starts_play() {
    let mut game = Game::Start;
    game.input(Input::Left);
    assert!(matches!(game, Game::Start));
    game.input(Input::Confirm);
    match &game {
        Game::Play(board) => {
            assert_eq!(board.width(), 10);
            assert_eq!(board.height(), 20);
            assert_eq!(board.score, 0);
        }
        _ => panic!("confirm must start a game"),
    }
    assert_eq!(game.score(), 0);
}

#[test]
fn game_over_returns_to_start_on_confirm() {
    let mut game = Game::Over { score: 7 };
    game.input(Input::Down);
    assert_eq!(game.score(), 7);
    game.step();
    assert_eq!(game.score(), 7);
    game.input(Input::Confirm);
    assert!(matches!(game, Game::Start));
    assert_eq!(game.score(), 0);
}

#[test]
fn game_step_forwards_to_board() {
    let mut game = Game::Start;
    game.step();
    assert!(matches!(game, Game::Start));
    game.input(Input::Confirm);
    game.step();
    match &game {
        Game::Play(board) => {
            assert_eq!(board.block_position().y, 1);
        }
        _ => panic!("one tick on an empty field cannot end the game"),
    }
}
