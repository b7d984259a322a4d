//! Scenario tests against the pure move form, the spawn policy, the
//! terminal-state evaluation and the session controller.
//!
//! `move_command` works on a flat grid vector: the cell at column `x`
//! and row `y` sits at index `x * 4 + y`.  The board accessors `cell`
//! and `set` take `[row, column]` indices instead.

use game2048::Cell;
use game2048::GameState;
use game2048::Gameboard;
use game2048::GameboardController;
use game2048::MoveDirection;

fn empty_grid() -> Vec<Cell> {
    vec![Cell::Empty; 16]
}

fn idx(x: usize, y: usize) -> usize {
    x * 4 + y
}

fn snapshot(board: &Gameboard) -> Vec<Cell> {
    let mut cells: Vec<Cell> = Vec::new();
    for x in 0..4 {
        for y in 0..4 {
            cells.push(board.cell([y, x]));
        }
    }
    cells
}

/// Fills the board with a 2/4 checkerboard: every cell occupied, no two
/// adjacent cells equal, so no direction can move anything.
fn fill_blocked(board: &mut Gameboard) {
    for x in 0..4 {
        for y in 0..4 {
            let value: usize = if (x + y) % 2 == 0 { 2 } else { 4 };
            board.set([y, x], Cell::Occupied(value));
        }
    }
}

#[test]
fn merge_up_leaves_trailing_cell_empty() {
    let board = Gameboard::new(false);
    let mut cells = empty_grid();
    cells[idx(0, 0)] = Cell::Occupied(2);
    cells[idx(0, 1)] = Cell::Occupied(2);
    let (moved, out) = board.move_command(MoveDirection::Up, cells);
    assert!(moved);
    assert_eq!(out[idx(0, 0)], Cell::Occupied(4));
    for t in 1..16 {
        assert_eq!(out[t], Cell::Empty);
    }
}

#[test]
fn unequal_tiles_stay_put_on_move_up() {
    let board = Gameboard::new(false);
    let mut cells = empty_grid();
    cells[idx(0, 0)] = Cell::Occupied(2);
    cells[idx(0, 1)] = Cell::Occupied(4);
    let (moved, out) = board.move_command(MoveDirection::Up, cells);
    assert!(!moved);
    assert_eq!(out[idx(0, 0)], Cell::Occupied(2));
    assert_eq!(out[idx(0, 1)], Cell::Occupied(4));
    for x in 0..4 {
        for y in 0..4 {
            if (x, y) != (0, 0) && (x, y) != (0, 1) {
                assert_eq!(out[idx(x, y)], Cell::Empty);
            }
        }
    }
}

#[test]
fn merge_works_across_empty_gap() {
    let board = Gameboard::new(false);
    let mut cells = empty_grid();
    cells[idx(0, 0)] = Cell::Occupied(2);
    cells[idx(0, 3)] = Cell::Occupied(2);
    let (moved, out) = board.move_command(MoveDirection::Up, cells);
    assert!(moved);
    assert_eq!(out[idx(0, 0)], Cell::Occupied(4));
    assert_eq!(out[idx(0, 1)], Cell::Empty);
    assert_eq!(out[idx(0, 2)], Cell::Empty);
    assert_eq!(out[idx(0, 3)], Cell::Empty);
}

#[test]
fn single_tile_slides_all_the_way_left() {
    let board = Gameboard::new(false);
    let mut cells = empty_grid();
    cells[idx(3, 0)] = Cell::Occupied(2);
    let (moved, out) = board.move_command(MoveDirection::Left, cells);
    assert!(moved);
    assert_eq!(out[idx(0, 0)], Cell::Occupied(2));
    assert_eq!(out[idx(3, 0)], Cell::Empty);
}

#[test]
fn eights_merge_to_sixteen() {
    let board = Gameboard::new(false);
    let mut cells = empty_grid();
    cells[idx(0, 0)] = Cell::Occupied(8);
    cells[idx(0, 3)] = Cell::Occupied(8);
    let (moved, out) = board.move_command(MoveDirection::Up, cells);
    assert!(moved);
    assert_eq!(out[idx(0, 0)], Cell::Occupied(16));
}

#[test]
fn single_tile_reaches_each_boundary() {
    let board = Gameboard::new(false);
    let cases = [
        (MoveDirection::Up, idx(1, 0)),
        (MoveDirection::Down, idx(1, 3)),
        (MoveDirection::Left, idx(0, 2)),
        (MoveDirection::Right, idx(3, 2)),
    ];
    for (direction, target) in cases {
        let mut cells = empty_grid();
        cells[idx(1, 2)] = Cell::Occupied(2);
        let (moved, out) = board.move_command(direction, cells);
        assert!(moved);
        assert_eq!(out[target], Cell::Occupied(2));
        for t in 0..16 {
            if t != target {
                assert_eq!(out[t], Cell::Empty);
            }
        }
    }
}

#[test]
fn scan_order_cascades_merges_within_one_pass() {
    let board = Gameboard::new(false);
    let mut cells = empty_grid();
    cells[idx(0, 0)] = Cell::Occupied(2);
    cells[idx(0, 1)] = Cell::Occupied(2);
    cells[idx(0, 2)] = Cell::Occupied(4);
    cells[idx(0, 3)] = Cell::Occupied(8);
    let (moved, out) = board.move_command(MoveDirection::Up, cells);
    assert!(moved);
    assert_eq!(out[idx(0, 0)], Cell::Occupied(16));
    assert_eq!(out[idx(0, 1)], Cell::Empty);
    assert_eq!(out[idx(0, 2)], Cell::Empty);
    assert_eq!(out[idx(0, 3)], Cell::Empty);
}

#[test]
fn merged_tile_does_not_take_unequal_third() {
    let board = Gameboard::new(false);
    let mut cells = empty_grid();
    cells[idx(0, 0)] = Cell::Occupied(2);
    cells[idx(0, 1)] = Cell::Occupied(2);
    cells[idx(0, 2)] = Cell::Occupied(2);
    let (moved, out) = board.move_command(MoveDirection::Up, cells);
    assert!(moved);
    assert_eq!(out[idx(0, 0)], Cell::Occupied(4));
    assert_eq!(out[idx(0, 1)], Cell::Occupied(2));
    assert_eq!(out[idx(0, 2)], Cell::Empty);
}

#[test]
fn packed_distinct_tiles_do_not_move_again() {
    let board = Gameboard::new(false);
    let mut cells = empty_grid();
    cells[idx(0, 0)] = Cell::Occupied(4);
    cells[idx(1, 0)] = Cell::Occupied(2);
    let (moved, out) = board.move_command(MoveDirection::Left, cells);
    assert!(!moved);
    assert_eq!(out[idx(0, 0)], Cell::Occupied(4));
    assert_eq!(out[idx(1, 0)], Cell::Occupied(2));
}

#[test]
fn blocked_full_board_cannot_move_and_loses() {
    let mut board = Gameboard::new(false);
    fill_blocked(&mut board);
    assert!(!board.can_move());
    let state = board.handle_move(MoveDirection::Up);
    assert_eq!(state, GameState::Lost);
}

#[test]
fn loss_is_reported_before_a_fresh_win() {
    let mut board = Gameboard::new(false);
    fill_blocked(&mut board);
    board.set([0, 0], Cell::Occupied(2048));
    let state = board.handle_move(MoveDirection::Up);
    assert_eq!(state, GameState::Lost);
}

#[test]
fn spawn_fills_the_only_empty_cell() {
    let mut board = Gameboard::new(false);
    fill_blocked(&mut board);
    board.set([3, 3], Cell::Empty);
    let before = snapshot(&board);
    board.maybe_add_new_cells();
    assert_eq!(board.cell([3, 3]), Cell::Occupied(2));
    let after = snapshot(&board);
    for t in 0..16 {
        if t != idx(3, 3) {
            assert_eq!(after[t], before[t]);
        }
    }
}

#[test]
fn spawn_on_full_board_changes_nothing() {
    let mut board = Gameboard::new(false);
    fill_blocked(&mut board);
    let before = snapshot(&board);
    board.maybe_add_new_cells();
    assert_eq!(snapshot(&board), before);
}

#[test]
fn move_that_changes_grid_spawns_one_tile() {
    let mut board = Gameboard::new(false);
    board.set([0, 0], Cell::Occupied(2));
    let state = board.handle_move(MoveDirection::Right);
    assert_eq!(state, GameState::Playing);
    assert_eq!(board.cell([0, 3]), Cell::Occupied(2));
    let mut occupied: usize = 0;
    for cell in snapshot(&board) {
        match cell {
            Cell::Occupied(n) => {
                assert_eq!(n, 2);
                occupied += 1;
            }
            Cell::Empty => {}
        }
    }
    assert_eq!(occupied, 2);
}

#[test]
fn new_empty_board_is_empty() {
    let board = Gameboard::new(false);
    for cell in snapshot(&board) {
        assert_eq!(cell, Cell::Empty);
    }
}

#[test]
fn new_populated_board_holds_one_to_four_twos() {
    let board = Gameboard::new(true);
    let mut occupied: usize = 0;
    for cell in snapshot(&board) {
        match cell {
            Cell::Occupied(n) => {
                assert_eq!(n, 2);
                occupied += 1;
            }
            Cell::Empty => {}
        }
    }
    assert!(1 <= occupied && occupied <= 4);
}

#[test]
fn win_is_reported_only_once() {
    let mut board = Gameboard::new(false);
    board.set([0, 0], Cell::Occupied(1024));
    board.set([1, 0], Cell::Occupied(1024));
    let first = board.handle_move(MoveDirection::Up);
    assert_eq!(first, GameState::Won);
    let second = board.handle_move(MoveDirection::Down);
    assert_eq!(second, GameState::Playing);
}

#[test]
fn controller_acknowledges_win_without_moving() {
    let mut board = Gameboard::new(false);
    board.set([0, 0], Cell::Occupied(1024));
    board.set([1, 0], Cell::Occupied(1024));
    let mut controller = GameboardController::new(board);
    controller.move_command(MoveDirection::Up);
    assert_eq!(controller.game_state, GameState::Won);
    let before = snapshot(&controller.gameboard);
    controller.move_command(MoveDirection::Up);
    assert_eq!(controller.game_state, GameState::Playing);
    assert_eq!(snapshot(&controller.gameboard), before);
}

#[test]
fn controller_ignores_commands_after_a_loss() {
    let mut board = Gameboard::new(false);
    fill_blocked(&mut board);
    let mut controller = GameboardController::new(board);
    controller.move_command(MoveDirection::Up);
    assert_eq!(controller.game_state, GameState::Lost);
    let before = snapshot(&controller.gameboard);
    controller.move_command(MoveDirection::Left);
    assert_eq!(controller.game_state, GameState::Lost);
    assert_eq!(snapshot(&controller.gameboard), before);
}

#[test]
fn within_limits_rejects_values_that_are_no_powers_of_two() {
    let mut board = Gameboard::new(false);
    fill_blocked(&mut board);
    assert!(board.within_limits());
    board.set([2, 2], Cell::Occupied(3));
    assert!(!board.within_limits());
    board.set([2, 2], Cell::Occupied(usize::MAX / 2 + 1));
    assert!(!board.within_limits());
    board.set([2, 2], Cell::Occupied(8));
    assert!(board.within_limits());
}

#[test]
fn move_conserves_total_value_and_counts_merges() {
    let board = Gameboard::new(false);
    let mut cells = empty_grid();
    cells[idx(0, 0)] = Cell::Occupied(2);
    cells[idx(0, 1)] = Cell::Occupied(2);
    cells[idx(0, 2)] = Cell::Occupied(4);
    cells[idx(0, 3)] = Cell::Occupied(8);
    cells[idx(2, 1)] = Cell::Occupied(8);
    cells[idx(2, 3)] = Cell::Occupied(4);
    let total = |g: &Vec<Cell>| -> usize {
        g.iter()
            .map(|c| match c {
                Cell::Occupied(n) => *n,
                Cell::Empty => 0,
            })
            .sum()
    };
    let occupied = |g: &Vec<Cell>| -> usize {
        g.iter().filter(|c| matches!(c, Cell::Occupied(_))).count()
    };
    let before_total = total(&cells);
    let before_occupied = occupied(&cells);
    let (moved, out) = board.move_command(MoveDirection::Up, cells);
    assert!(moved);
    // column 0 cascades through three merges; column 2 only slides
    assert_eq!(out[idx(0, 0)], Cell::Occupied(16));
    assert_eq!(out[idx(2, 0)], Cell::Occupied(8));
    assert_eq!(out[idx(2, 1)], Cell::Occupied(4));
    assert_eq!(total(&out), before_total);
    assert_eq!(occupied(&out), before_occupied - 3);
}
