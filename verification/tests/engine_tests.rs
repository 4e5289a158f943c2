use minesweeper::engine::{build_minesweeper_board, cord_tile, determine_tile_number, flag_tile, reveal_tile};
use minesweeper::session::{Game, GameResult};
use minesweeper::Tile;

fn count_mines(board: &Vec<Vec<Tile>>) -> i32 {
    let mut n = 0;
    for row in board.iter() {
        for t in row.iter() {
            if t.has_mine() {
                n += 1;
            }
        }
    }
    n
}

// A fixed 2x2 board with one mine in the top-left corner.
fn corner_mine_board() -> Vec<Vec<Tile>> {
    let mut board = vec![
        vec![Tile::empty(), Tile::empty()],
        vec![Tile::empty(), Tile::empty()],
    ];
    for i in 0..2 {
        for j in 0..2 {
            board[i][j].set_pos([i as i32, j as i32]);
        }
    }
    board[0][0].set_mine(true);
    determine_tile_number(&mut board);
    board
}

#[test]
fn build_places_requested_mines() {
    let board = build_minesweeper_board(4, 5, 7);
    assert_eq!(board.len(), 4);
    assert_eq!(board[0].len(), 5);
    assert_eq!(count_mines(&board), 7);
    for row in board.iter() {
        for t in row.iter() {
            assert!(!t.is_revealed());
            assert!(!t.is_flagged());
        }
    }
}

#[test]
fn build_caps_mines_at_cell_count() {
    let board = build_minesweeper_board(2, 2, 99);
    assert_eq!(count_mines(&board), 4);
    let board = build_minesweeper_board(2, 2, -3);
    assert_eq!(count_mines(&board), 0);
}

#[test]
fn adjacency_counts_corner_mine() {
    let board = corner_mine_board();
    assert_eq!(board[0][1].get_num(), 1);
    assert_eq!(board[1][0].get_num(), 1);
    assert_eq!(board[1][1].get_num(), 1);
    assert_eq!(board[0][0].get_num(), 0);
}

#[test]
fn reveal_is_idempotent_and_blocked_cases() {
    let mut board = corner_mine_board();
    assert_eq!(reveal_tile(&mut board, 1, 1, false), 0);
    assert!(board[1][1].is_revealed());
    // already revealed: blocked, nothing changes
    assert_eq!(reveal_tile(&mut board, 1, 1, false), 2);
    // out of bounds: blocked
    assert_eq!(reveal_tile(&mut board, 5, 5, false), 2);
    assert_eq!(reveal_tile(&mut board, -1, 0, false), 2);
    // flagged: blocked
    flag_tile(&mut board, 0, 1, 10);
    assert_eq!(reveal_tile(&mut board, 0, 1, false), 2);
    assert!(!board[1][0].is_revealed());
}

#[test]
fn reveal_hits_mine_outside_first_click() {
    let mut board = corner_mine_board();
    assert_eq!(reveal_tile(&mut board, 0, 0, false), 1);
    assert!(!board[0][0].is_revealed());
    assert!(board[0][0].has_mine());
}

#[test]
fn first_click_relocates_mine() {
    let mut board = corner_mine_board();
    assert_eq!(reveal_tile(&mut board, 0, 0, true), 0);
    assert!(!board[0][0].has_mine());
    assert!(board[0][0].is_revealed());
    // the mine moved to the first clean cell in row-major order: (0, 1)
    assert!(board[0][1].has_mine());
    assert_eq!(count_mines(&board), 1);
    // adjacency is consistent with the new placement
    assert_eq!(board[0][0].get_num(), 1);
    assert_eq!(board[1][0].get_num(), 1);
    assert_eq!(board[1][1].get_num(), 1);
}

#[test]
fn flood_reveals_zero_region_and_border() {
    // 1x3 board, no mines: revealing (0,0) floods all three tiles
    let mut board = build_minesweeper_board(1, 3, 0);
    assert_eq!(reveal_tile(&mut board, 0, 0, true), 0);
    assert!(board[0][0].is_revealed());
    assert!(board[0][1].is_revealed());
    assert!(board[0][2].is_revealed());
}

#[test]
fn flood_stops_at_numbered_border() {
    // 1x4 with a mine at the right end: revealing (0,0) reveals up to the
    // numbered border tile but never the mine
    let mut board = vec![vec![Tile::empty(); 4]];
    for j in 0..4 {
        board[0][j].set_pos([0, j as i32]);
    }
    board[0][3].set_mine(true);
    determine_tile_number(&mut board);
    assert_eq!(reveal_tile(&mut board, 0, 0, false), 0);
    assert!(board[0][0].is_revealed());
    assert!(board[0][1].is_revealed());
    assert!(board[0][2].is_revealed());
    assert!(!board[0][3].is_revealed());
}

#[test]
fn chord_reveals_neighbors_when_flags_match() {
    // 3x3, mines at (0,0) and (0,2); center shows 2
    let mut board = vec![vec![Tile::empty(); 3]; 3];
    for i in 0..3 {
        for j in 0..3 {
            board[i][j].set_pos([i as i32, j as i32]);
        }
    }
    board[0][0].set_mine(true);
    board[0][2].set_mine(true);
    determine_tile_number(&mut board);
    assert_eq!(board[1][1].get_num(), 2);
    assert_eq!(reveal_tile(&mut board, 1, 1, false), 0);
    // flag both mines correctly, then chord the center
    flag_tile(&mut board, 0, 0, 2);
    flag_tile(&mut board, 2, 0, 1);
    assert_eq!(cord_tile(&mut board, 1, 1), Ok(true));
    // every unflagged neighbor is revealed, no mine was hit
    assert!(board[0][1].is_revealed());
    assert!(board[1][0].is_revealed());
    assert!(board[1][2].is_revealed());
    assert!(board[2][0].is_revealed());
    assert!(board[2][1].is_revealed());
    assert!(board[2][2].is_revealed());
    assert!(!board[0][0].is_revealed());
    assert!(!board[0][2].is_revealed());
}

#[test]
fn chord_with_wrong_flag_hits_mine_and_stops() {
    // same layout, but one flag sits on a safe tile instead of the mine at
    // (0,2): the chord uncovers that mine and reports its coordinate
    let mut board = vec![vec![Tile::empty(); 3]; 3];
    for i in 0..3 {
        for j in 0..3 {
            board[i][j].set_pos([i as i32, j as i32]);
        }
    }
    board[0][0].set_mine(true);
    board[0][2].set_mine(true);
    determine_tile_number(&mut board);
    assert_eq!(reveal_tile(&mut board, 1, 1, false), 0);
    flag_tile(&mut board, 0, 0, 2);
    flag_tile(&mut board, 0, 1, 1); // wrong: flags a safe tile
    assert_eq!(cord_tile(&mut board, 1, 1), Err([2, 0]));
    assert!(!board[0][2].is_revealed());
}

#[test]
fn chord_mismatched_flags_is_no_op() {
    let mut board = corner_mine_board();
    assert_eq!(reveal_tile(&mut board, 1, 1, false), 0);
    assert_eq!(cord_tile(&mut board, 1, 1), Ok(false));
    assert!(!board[0][1].is_revealed());
}

#[test]
fn chord_blocked_on_invalid_targets() {
    let mut board = corner_mine_board();
    assert_eq!(cord_tile(&mut board, 9, 9, ), Err([-1, -1]));
    // the mined corner shows 0, so chording it is an error
    assert_eq!(cord_tile(&mut board, 0, 0), Err([-1, -1]));
}

#[test]
fn flagging_is_reversible() {
    let mut board = corner_mine_board();
    let budget = flag_tile(&mut board, 1, 0, 5);
    assert_eq!(budget, 4);
    assert!(board[0][1].is_flagged());
    let budget = flag_tile(&mut board, 1, 0, budget);
    assert_eq!(budget, 5);
    assert!(!board[0][1].is_flagged());
}

#[test]
fn flagging_revealed_or_out_of_bounds_is_no_op() {
    let mut board = corner_mine_board();
    reveal_tile(&mut board, 1, 1, false);
    assert_eq!(flag_tile(&mut board, 1, 1, 5), 5);
    assert!(!board[1][1].is_flagged());
    assert_eq!(flag_tile(&mut board, 7, 7, 5), 5);
}

#[test]
fn session_win_on_empty_board() {
    // 1x3 board with 0 mines: one reveal flood-fills everything and wins
    let board = build_minesweeper_board(1, 3, 0);
    let mut game = Game::new(board, 0);
    game.reveal_at(0, 0);
    game.check_win();
    assert_eq!(game.game_result, GameResult::Won);
    for t in game.board[0].iter() {
        assert!(t.is_revealed());
        assert!(t.is_flagged());
    }
}

#[test]
fn session_loss_records_hit_mine() {
    let board = corner_mine_board();
    let mut game = Game::new(board, 1);
    game.reveal_at(1, 1); // first click on a safe tile
    game.reveal_at(0, 0); // second click hits the mine
    assert_eq!(game.game_result, GameResult::Lost);
    assert_eq!(game.hit_mine, [0, 0]);
    // further actions are suppressed
    game.reveal_at(1, 0);
    assert!(!game.board[1][0].is_revealed());
}

#[test]
fn session_budget_and_reset() {
    let board = corner_mine_board();
    let mut game = Game::new(board, 1);
    game.flag_at(0, 0);
    assert_eq!(game.current_mine_count, 0);
    game.flag_at(1, 0);
    assert_eq!(game.current_mine_count, -1); // over-flagging may go negative
    game.reset();
    assert_eq!(game.game_result, GameResult::InProgress);
    assert_eq!(game.current_mine_count, 1);
    assert!(game.first_click);
    assert_eq!(game.elapsed_ticks, 0);
}

#[test]
fn session_timer_gating() {
    let board = corner_mine_board();
    let mut game = Game::new(board, 1);
    game.add_time(10);
    assert_eq!(game.elapsed_ticks, 0); // not started: no first move yet
    game.reveal_at(1, 1);
    game.add_time(10);
    game.add_time(5);
    assert_eq!(game.elapsed_ticks, 15);
    game.reveal_at(0, 0); // lose
    game.add_time(10);
    assert_eq!(game.elapsed_ticks, 15); // frozen after the game ends
}
