//! The board-level move tests.
//!
//! Cell accessors take `[row, column]` indices: the cell at column `x`
//! and row `y` is read with `cell([y, x])` and written with
//! `set([y, x], ..)`.

use game2048::Cell;
use game2048::Gameboard;
use game2048::MoveDirection;

#[test]
fn simple_addition() {
    let mut gameboard: Gameboard = Gameboard::new(false);
    gameboard.set([0, 0], Cell::Occupied(2));
    gameboard.set([1, 0], Cell::Occupied(2));
    gameboard.handle_move(MoveDirection::Up);
    let cell = gameboard.cell([0, 0]);
    match cell {
        Cell::Occupied(n) => {
            assert_eq!(n, 4);
        }
        _ => {
            panic!("Cell not found!");
        }
    }
}

#[test]
fn numbers_dont_add_up() {
    let mut gameboard: Gameboard = Gameboard::new(false);
    gameboard.set([0, 0], Cell::Occupied(2));
    gameboard.set([1, 0], Cell::Occupied(4));
    gameboard.handle_move(MoveDirection::Up);
    let cell = gameboard.cell([0, 0]);
    match cell {
        Cell::Occupied(n) => {
            assert_eq!(n, 2);
        }
        _ => {
            panic!("Cell not found!");
        }
    }
}

#[test]
fn empty_cell_doesnt_add_up() {
    let mut gameboard: Gameboard = Gameboard::new(false);
    gameboard.set([0, 0], Cell::Occupied(2));
    gameboard.set([1, 0], Cell::Empty);
    gameboard.handle_move(MoveDirection::Up);
    let cell = gameboard.cell([0, 0]);
    match cell {
        Cell::Occupied(n) => {
            assert_eq!(n, 2);
        }
        _ => {
            panic!("Cell not found!");
        }
    }
}

#[test]
fn addition_works_across_multiple_steps() {
    let mut gameboard: Gameboard = Gameboard::new(false);
    gameboard.set([0, 0], Cell::Occupied(2));
    gameboard.set([3, 0], Cell::Occupied(2));
    gameboard.handle_move(MoveDirection::Up);
    let cell = gameboard.cell([0, 0]);
    match cell {
        Cell::Occupied(n) => {
            assert_eq!(n, 4);
        }
        _ => {
            panic!("Cell not found!");
        }
    }
}

#[test]
fn addition_works_for_other_numbers() {
    let mut gameboard: Gameboard = Gameboard::new(false);
    gameboard.set([0, 0], Cell::Occupied(8));
    gameboard.set([3, 0], Cell::Occupied(8));
    gameboard.handle_move(MoveDirection::Up);
    let cell = gameboard.cell([0, 0]);
    match cell {
        Cell::Occupied(n) => {
            assert_eq!(n, 16);
        }
        _ => {
            panic!("Cell not found!");
        }
    }
}

#[test]
fn moving_left_works() {
    let mut gameboard: Gameboard = Gameboard::new(false);
    gameboard.set([0, 3], Cell::Occupied(2));
    gameboard.handle_move(MoveDirection::Left);
    let cell = gameboard.cell([0, 0]);
    match cell {
        Cell::Occupied(n) => {
            assert_eq!(n, 2);
        }
        _ => {
            panic!("Cell not found!");
        }
    }
}

#[test]
fn moving_right_works() {
    let mut gameboard: Gameboard = Gameboard::new(false);
    gameboard.set([0, 0], Cell::Occupied(2));
    gameboard.handle_move(MoveDirection::Right);
    let cell = gameboard.cell([0, 3]);
    match cell {
        Cell::Occupied(n) => {
            assert_eq!(n, 2);
        }
        _ => {
            panic!("Cell not found!");
        }
    }
}

#[test]
fn moving_down_works() {
    let mut gameboard: Gameboard = Gameboard::new(false);
    gameboard.set([0, 0], Cell::Occupied(2));
    gameboard.handle_move(MoveDirection::Down);
    let cell = gameboard.cell([3, 0]);
    match cell {
        Cell::Occupied(n) => {
            assert_eq!(n, 2);
        }
        _ => {
            panic!("Cell not found!");
        }
    }
}

#[test]
fn moving_up_works() {
    let mut gameboard: Gameboard = Gameboard::new(false);
    gameboard.set([3, 0], Cell::Occupied(2));
    gameboard.handle_move(MoveDirection::Up);
    let cell = gameboard.cell([0, 0]);
    match cell {
        Cell::Occupied(n) => {
            assert_eq!(n, 2);
        }
        _ => {
            panic!("Cell not found!");
        }
    }
}
