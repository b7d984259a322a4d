//! The game board: a 4x4 grid of cells plus the one-shot win flag.

use vstd::prelude::*;

use crate::model::cell_le;
use crate::model::changes_within;
use crate::model::contains_2048;
use crate::model::lemma_occ_lower;
use crate::model::lemma_occ_within;
use crate::model::empties_in_prefix;
use crate::model::is_power_of_two;
use crate::model::lemma_counts;
use crate::model::lemma_two_is_power_of_two;
use crate::model::occ_in_prefix;
use crate::model::occupied_count;
use crate::model::only_twos_added;
use crate::model::spawn_result;
use crate::model::valid_cell;
use crate::model::values_le;
use crate::model::wf_grid;
use crate::moves::can_any_move;
use crate::moves::decision;
use crate::moves::lemma_lines_moved_all;
use crate::moves::lemma_line_geometry;
use crate::moves::lemma_move_preserves;
use crate::moves::lemma_partial_finish;
use crate::moves::lemma_partial_line_done;
use crate::moves::lemma_partial_start;
use crate::moves::lemma_partial_transition;
use crate::moves::lemma_settle_len;
use crate::moves::lemma_settle_suffix;
use crate::moves::lemma_walk_path;
use crate::moves::line_of;
use crate::moves::line_pos;
use crate::moves::line_slot;
use crate::moves::lines_moved_before;
use crate::moves::move_moves;
use crate::moves::move_spec;
use crate::moves::moved_prefix;
use crate::moves::partial_grid;
use crate::moves::path_spec;
use crate::moves::pos_in_range;
use crate::moves::pos_index;
use crate::moves::settle_prefix;
use crate::moves::step_moves;
use crate::moves::walk;

verus! {

/// Side length of the square game board.
pub const SIZE: usize = 4;

/// Content of one cell: empty, or a tile holding a value.
#[derive(Clone, Copy, Debug, PartialEq, Eq, Structural)]
pub enum Cell {
    Occupied(usize),
    Empty,
}

/// The four directions a move can take.
#[derive(Clone, Copy, Debug, PartialEq, Eq, Structural)]
pub enum MoveDirection {
    Up,
    Right,
    Down,
    Left,
}

/// Externally visible game phase.
#[derive(Clone, Copy, Debug, PartialEq, Eq, Structural)]
pub enum GameState {
    Won,
    Lost,
    Playing,
}

/// A transient grid coordinate: `x` is the column, `y` the row.
#[derive(Clone, Copy, Debug, PartialEq, Eq, Structural)]
pub struct Position {
    pub x: usize,
    pub y: usize,
}

/// Runtime check of the `is_power_of_two` spec by repeated halving.
fn is_power_of_two_value(v: usize) -> (r: bool)
    ensures
        r == is_power_of_two(v as nat),
{
    if v < 1 {
        return false;
    }
    let mut x = v;
    while x > 1 && x % 2 == 0
        invariant
            1 <= x,
            is_power_of_two(v as nat) == is_power_of_two(x as nat),
        decreases x,
    {
        x = x / 2;
    }
    x == 1
}

impl Position {
    pub fn new(x: usize, y: usize) -> (p: Position)
        ensures
            p.x == x,
            p.y == y,
    {
        Position { x, y }
    }
}

/// Stores game board information.
///
/// The cells are kept as a flat vector of 16 entries; the cell at
/// column `x` and row `y` sits at index `x * 4 + y`.
pub struct Gameboard {
    cells: Vec<Cell>,
    has_already_won: bool,
}

impl Gameboard {
    /// The grid as a mathematical sequence.
    pub closed spec fn grid(self) -> Seq<Cell> {
        self.cells@
    }

    /// Whether the win signal has already fired for this session.
    pub closed spec fn won_flag(self) -> bool {
        self.has_already_won
    }

    /// Well-formed board: 16 cells, each empty or a power of two >= 2.
    pub open spec fn wf(self) -> bool {
        wf_grid(self.grid())
    }

    /// Creates a new game board, empty or populated with starter tiles.
    pub fn new(set_up_board: bool) -> (board: Gameboard)
        ensures
            board.wf(),
            !board.won_flag(),
            !set_up_board ==> forall|i: int| 0 <= i < 16 ==> (#[trigger] board.grid()[i]) is Empty,
            set_up_board ==> only_twos_added(Seq::new(16, |i: int| Cell::Empty), board.grid()),
            set_up_board ==> exists|i: int|
                0 <= i < 16 && #[trigger] board.grid()[i] == Cell::Occupied(2usize),
            set_up_board ==> (1 <= occupied_count(board.grid()) && occupied_count(board.grid())
                <= 4),
    {
        let mut cells: Vec<Cell> = Vec::new();
        let mut t: usize = 0;
        while t < 16
            invariant
                t <= 16,
                cells@.len() == t,
                forall|i: int| 0 <= i < t ==> (#[trigger] cells@[i]) is Empty,
            decreases 16 - t,
        {
            cells.push(Cell::Empty);
            t += 1;
        }
        let mut gameboard = Gameboard { cells, has_already_won: false };
        if set_up_board {
            let ghost gpre = gameboard.grid();
            gameboard.set_up_board();
            proof {
                let (p1, p2, p3, p4) = choose|p1: int, p2: int, p3: int, p4: int|
                    changes_within(gpre, gameboard.grid(), p1, p2, p3, p4);
                assert forall|i: int|
                    0 <= i < 16 && (#[trigger] gameboard.grid()[i]) is Occupied
                    implies (i == p1 || i == p2 || i == p3 || i == p4) by {
                    assert(gpre[i] is Empty);
                }
                lemma_occ_within(gameboard.grid(), 16, p1, p2, p3, p4);
                let w = choose|i: int|
                    0 <= i < 16 && #[trigger] gameboard.grid()[i] == Cell::Occupied(2usize);
                lemma_occ_lower(gameboard.grid(), 16, w);
            }
        }
        gameboard
    }

    /// Sets up the initial board: four placements of a 2 at independently
    /// random cells, drawn with replacement, so later draws may overwrite
    /// earlier ones and the board may start with fewer than four tiles.
    pub fn set_up_board(&mut self)
        requires
            old(self).grid().len() == 16,
        ensures
            final(self).grid().len() == 16,
            final(self).won_flag() == old(self).won_flag(),
            only_twos_added(old(self).grid(), final(self).grid()),
            exists|i: int| 0 <= i < 16 && #[trigger] final(self).grid()[i] == Cell::Occupied(2usize),
            exists|p1: int, p2: int, p3: int, p4: int|
                changes_within(old(self).grid(), final(self).grid(), p1, p2, p3, p4),
            old(self).wf() ==> final(self).wf(),
    {
        let ghost mut written: Seq<int> = Seq::empty();
        let mut k: usize = 0;
        while k < 4
            invariant
                k <= 4,
                self.grid().len() == 16,
                self.won_flag() == old(self).won_flag(),
                only_twos_added(old(self).grid(), self.grid()),
                k > 0 ==> exists|i: int|
                    0 <= i < 16 && #[trigger] self.grid()[i] == Cell::Occupied(2usize),
                written.len() == k,
                forall|i: int|
                    0 <= i < 16 && (#[trigger] self.grid()[i]) != old(self).grid()[i]
                        ==> written.contains(i),
            decreases 4 - k,
        {
            let cell_x = crate::rng::random_below(4);
            let cell_y = crate::rng::random_below(4);
            let ghost gpre = self.grid();
            let ghost idx = (cell_x * 4 + cell_y) as int;
            self.cells.set(cell_x * 4 + cell_y, Cell::Occupied(2));
            assert(self.grid()[cell_x * 4 + cell_y] == Cell::Occupied(2usize));
            proof {
                let prev = written;
                written = written.push(idx);
                assert forall|i: int|
                    0 <= i < 16 && (#[trigger] self.grid()[i]) != old(self).grid()[i]
                    implies written.contains(i) by {
                    if i == idx {
                        assert(written[prev.len() as int] == idx);
                    } else {
                        assert(gpre[i] != old(self).grid()[i]);
                        assert(prev.contains(i));
                        let j = choose|j: int| 0 <= j < prev.len() && prev[j] == i;
                        assert(written[j] == i);
                    }
                }
            }
            k += 1;
        }
        proof {
            assert(changes_within(
                old(self).grid(),
                self.grid(),
                written[0],
                written[1],
                written[2],
                written[3],
            )) by {
                assert forall|i: int|
                    0 <= i < 16 && (#[trigger] self.grid()[i]) != old(self).grid()[i]
                    implies (i == written[0] || i == written[1] || i == written[2] || i
                    == written[3]) by {
                    let j = choose|j: int| 0 <= j < written.len() && written[j] == i;
                }
            }
            if old(self).wf() {
                lemma_two_is_power_of_two();
                assert(forall|i: int| 0 <= i < 16 ==> valid_cell(#[trigger] self.grid()[i]));
            }
        }
    }

    /// Number of occupied cells on the board.
    pub fn number_of_filled_cels(&self) -> (count: usize)
        requires
            self.grid().len() == 16,
        ensures
            count == occupied_count(self.grid()),
            count <= 16,
    {
        let mut count: usize = 0;
        let mut t: usize = 0;
        while t < 16
            invariant
                t <= 16,
                count <= t,
                self.grid().len() == 16,
                count == occ_in_prefix(self.grid(), t as int),
            decreases 16 - t,
        {
            match self.cells[t] {
                Cell::Occupied(_) => {
                    count += 1;
                }
                Cell::Empty => {}
            }
            t += 1;
        }
        count
    }

    /// Whether the board holds a 2048 tile.
    pub fn has_won(&self) -> (r: bool)
        requires
            self.grid().len() == 16,
        ensures
            r == contains_2048(self.grid()),
    {
        let mut found: bool = false;
        let mut t: usize = 0;
        while t < 16
            invariant
                t <= 16,
                self.grid().len() == 16,
                found <==> exists|i: int|
                    0 <= i < t && #[trigger] self.grid()[i] == Cell::Occupied(2048usize),
            decreases 16 - t,
        {
            match self.cells[t] {
                Cell::Occupied(n) => {
                    if n == 2048 {
                        found = true;
                    }
                }
                Cell::Empty => {}
            }
            t += 1;
        }
        found
    }

    /// Index of the `r + 1`-th empty cell in grid order.
    fn nth_empty_index(&self, r: usize) -> (t: usize)
        requires
            self.grid().len() == 16,
            r < empties_in_prefix(self.grid(), 16),
        ensures
            t < 16,
            self.grid()[t as int] is Empty,
    {
        let mut t: usize = 0;
        let mut e: usize = 0;
        loop
            invariant
                t <= 16,
                e <= r,
                self.grid().len() == 16,
                r < empties_in_prefix(self.grid(), 16),
                e == empties_in_prefix(self.grid(), t as int),
            ensures
                t < 16,
                self.grid()[t as int] is Empty,
            decreases 16 - t,
        {
            proof {
                if t == 16 {
                    assert(false);
                }
            }
            match self.cells[t] {
                Cell::Empty => {
                    if e == r {
                        break;
                    }
                    e += 1;
                }
                Cell::Occupied(_) => {}
            }
            t += 1;
        }
        t
    }

    /// Spawns one tile after a successful move: if the grid has a free
    /// cell, a 2 is placed on an empty cell chosen uniformly at random;
    /// a full grid is left untouched.  An occupied cell is never
    /// overwritten.
    pub fn maybe_add_new_cells(&mut self)
        requires
            old(self).grid().len() == 16,
        ensures
            final(self).grid().len() == 16,
            final(self).won_flag() == old(self).won_flag(),
            spawn_result(old(self).grid(), final(self).grid()),
            old(self).wf() ==> final(self).wf(),
    {
        let current_num_of_filled = self.number_of_filled_cels();
        if current_num_of_filled < 16 {
            proof {
                lemma_counts(self.grid(), 16);
            }
            let num_of_free = 16 - current_num_of_filled;
            let r = crate::rng::random_below(num_of_free);
            let t = self.nth_empty_index(r);
            self.cells.set(t, Cell::Occupied(2));
            proof {
                assert(old(self).grid()[t as int] is Empty);
                assert(self.grid() == old(self).grid().update(t as int, Cell::Occupied(2usize)));
                if old(self).wf() {
                    lemma_two_is_power_of_two();
                    assert(forall|i: int| 0 <= i < 16 ==> valid_cell(#[trigger] self.grid()[i]));
                }
            }
        }
    }

    /// Whether every tile is a power of two of at least 2 and no larger
    /// than a quarter of `usize::MAX`: what the committing entry points
    /// assume, so that a merge and the probes after it cannot overflow.
    /// Boards built and mutated through the engine alone satisfy this in
    /// any game that machine arithmetic can represent.
    pub fn within_limits(&self) -> (r: bool)
        requires
            self.grid().len() == 16,
        ensures
            r == (self.wf() && values_le(self.grid(), usize::MAX as int / 4)),
    {
        let mut ok: bool = true;
        let mut t: usize = 0;
        while t < 16
            invariant
                t <= 16,
                self.grid().len() == 16,
                ok == (forall|i: int|
                    0 <= i < t ==> valid_cell(#[trigger] self.grid()[i]) && cell_le(
                        self.grid()[i],
                        usize::MAX as int / 4,
                    )),
            decreases 16 - t,
        {
            match self.cells[t] {
                Cell::Occupied(v) => {
                    if v < 2 || !is_power_of_two_value(v) || v > usize::MAX / 4 {
                        ok = false;
                    }
                }
                Cell::Empty => {}
            }
            t += 1;
        }
        ok
    }

    /// Gets the cell content at location `[row, column]`.
    pub fn cell(&self, ind: [usize; 2]) -> (c: Cell)
        requires
            self.grid().len() == 16,
            ind@[0] < 4,
            ind@[1] < 4,
        ensures
            c == self.grid()[ind@[1] * 4 + ind@[0]],
    {
        self.cells[ind[1] * 4 + ind[0]]
    }

    /// Sets the cell content at location `[row, column]`.
    pub fn set(&mut self, ind: [usize; 2], val: Cell)
        requires
            old(self).grid().len() == 16,
            ind@[0] < 4,
            ind@[1] < 4,
        ensures
            final(self).grid() == old(self).grid().update(ind@[1] * 4 + ind@[0], val),
            final(self).won_flag() == old(self).won_flag(),
    {
        self.cells.set(ind[1] * 4 + ind[0], val);
    }

    /// Walks the ordered candidate target positions for a tile of value
    /// `current_cell_n`: remembers the farthest empty candidate, stops at
    /// the first occupied one and merges with it when the values match;
    /// then commits the best modification found, clearing the tile's own
    /// cell.  Returns whether anything was committed.
    pub fn try_apply_modifications(
        &self,
        cells: &mut Vec<Cell>,
        modifications: Vec<Position>,
        current_cell_n: usize,
        current_cell_position: Position,
    ) -> (executed_move: bool)
        requires
            old(cells)@.len() == 16,
            forall|j: int|
                0 <= j < modifications@.len() ==> pos_in_range(#[trigger] modifications@[j]),
            pos_in_range(current_cell_position),
            current_cell_n <= usize::MAX / 2,
        ensures
            executed_move == (walk(old(cells)@, modifications@, current_cell_n) is Some),
            match walk(old(cells)@, modifications@, current_cell_n) {
                Option::Some((c, p)) => final(cells)@ == old(cells)@.update(pos_index(p), c).update(
                    pos_index(current_cell_position),
                    Cell::Empty,
                ),
                Option::None => final(cells)@ == old(cells)@,
            },
    {
        let ghost g0 = cells@;
        let n = current_cell_n;
        let mut modification: Option<(Cell, Position)> = Option::None;
        let mut j: usize = 0;
        let len = modifications.len();
        proof {
            assert(modifications@.skip(0) =~= modifications@);
        }
        while j < len
            invariant_except_break
                len == modifications@.len(),
                j <= len,
                cells@ == g0,
                g0.len() == 16,
                n == current_cell_n,
                n <= usize::MAX / 2,
                forall|jj: int|
                    0 <= jj < modifications@.len() ==> pos_in_range(#[trigger] modifications@[jj]),
                modification matches Option::Some((c, p)) ==> pos_in_range(p),
                walk(g0, modifications@, n) == (match walk(g0, modifications@.skip(j as int), n) {
                    Option::Some(r) => Option::Some(r),
                    Option::None => modification,
                }),
            ensures
                cells@ == g0,
                modification == walk(g0, modifications@, n),
                modification matches Option::Some((c, p)) ==> pos_in_range(p),
            decreases len - j,
        {
            let p = modifications[j];
            proof {
                assert(modifications@.skip(j as int)[0] == p);
                assert(modifications@.skip(j as int).drop_first() =~= modifications@.skip(
                    j as int + 1,
                ));
            }
            match cells[p.x * 4 + p.y] {
                Cell::Empty => {
                    modification = Option::Some((Cell::Occupied(n), p));
                }
                Cell::Occupied(m) => {
                    if m == n {
                        modification = Option::Some((Cell::Occupied(n * 2), p));
                    }
                    break ;
                }
            }
            j += 1;
        }
        match modification {
            Option::Some((new_cell, next_position)) => {
                cells.set(next_position.x * 4 + next_position.y, new_cell);
                cells.set(current_cell_position.x * 4 + current_cell_position.y, Cell::Empty);
                true
            }
            Option::None => false,
        }
    }

    /// Builds the ordered list of candidate target positions strictly
    /// between the cell at `(x, y)` and the board edge in the direction
    /// of motion, nearest first.
    fn build_modifications(move_direction: MoveDirection, x: usize, y: usize) -> (mods: Vec<
        Position,
    >)
        requires
            x < 4,
            y < 4,
        ensures
            match move_direction {
                MoveDirection::Up => mods@ == path_spec(move_direction, x as int, y as int),
                MoveDirection::Down => mods@ == path_spec(move_direction, x as int, 3 - y as int),
                MoveDirection::Left => mods@ == path_spec(move_direction, y as int, x as int),
                MoveDirection::Right => mods@ == path_spec(move_direction, y as int, 3 - x as int),
            },
    {
        let mut modifications: Vec<Position> = Vec::new();
        match move_direction {
            MoveDirection::Up => {
                let mut loop_y = y;
                while loop_y > 0
                    invariant
                        loop_y <= y < 4,
                        x < 4,
                        modifications@.len() == y - loop_y,
                        forall|j: int|
                            0 <= j < y - loop_y ==> #[trigger] modifications@[j] == (Position {
                                x,
                                y: (y - 1 - j) as usize,
                            }),
                    decreases loop_y,
                {
                    loop_y -= 1;
                    modifications.push(Position::new(x, loop_y));
                }
                proof {
                    assert(modifications@ =~= path_spec(move_direction, x as int, y as int));
                }
            }
            MoveDirection::Right => {
                let mut loop_x = x;
                while loop_x < 3
                    invariant
                        x <= loop_x <= 3,
                        y < 4,
                        modifications@.len() == loop_x - x,
                        forall|j: int|
                            0 <= j < loop_x - x ==> #[trigger] modifications@[j] == (Position {
                                x: (x + 1 + j) as usize,
                                y,
                            }),
                    decreases 3 - loop_x,
                {
                    loop_x += 1;
                    modifications.push(Position::new(loop_x, y));
                }
                proof {
                    assert(modifications@ =~= path_spec(move_direction, y as int, 3 - x as int));
                }
            }
            MoveDirection::Down => {
                let mut loop_y = y;
                while loop_y < 3
                    invariant
                        y <= loop_y <= 3,
                        x < 4,
                        modifications@.len() == loop_y - y,
                        forall|j: int|
                            0 <= j < loop_y - y ==> #[trigger] modifications@[j] == (Position {
                                x,
                                y: (y + 1 + j) as usize,
                            }),
                    decreases 3 - loop_y,
                {
                    loop_y += 1;
                    modifications.push(Position::new(x, loop_y));
                }
                proof {
                    assert(modifications@ =~= path_spec(move_direction, x as int, 3 - y as int));
                }
            }
            MoveDirection::Left => {
                let mut loop_x = x;
                while loop_x > 0
                    invariant
                        loop_x <= x < 4,
                        y < 4,
                        modifications@.len() == x - loop_x,
                        forall|j: int|
                            0 <= j < x - loop_x ==> #[trigger] modifications@[j] == (Position {
                                x: (x - 1 - j) as usize,
                                y,
                            }),
                    decreases loop_x,
                {
                    loop_x -= 1;
                    modifications.push(Position::new(loop_x, y));
                }
                proof {
                    assert(modifications@ =~= path_spec(move_direction, y as int, x as int));
                }
            }
        }
        modifications
    }

    /// Applies a move to a caller-supplied copy of the grid, without
    /// touching the board itself: every tile is visited in scan order and
    /// settled toward the direction of motion.  Returns whether any tile
    /// moved or merged, together with the resulting grid.
    pub fn move_command(&self, move_direction: MoveDirection, cells: Vec<Cell>) -> (r: (
        bool,
        Vec<Cell>,
    ))
        requires
            cells@.len() == 16,
            values_le(cells@, usize::MAX as int / 2),
        ensures
            r.0 == move_moves(move_direction, cells@),
            r.1@ == move_spec(move_direction, cells@),
    {
        let d = move_direction;
        let ghost g0 = cells@;
        let mut cells = cells;
        let mut executed_move: bool = false;
        proof {
            lemma_partial_start(d, g0);
        }
        let mut k: usize = 0;
        while k < 4
            invariant
                k <= 4,
                g0.len() == 16,
                values_le(g0, usize::MAX as int / 2),
                cells@ == partial_grid(d, g0, k as int, 0),
                executed_move == lines_moved_before(d, g0, k as int),
            decreases 4 - k,
        {
            let mut i: usize = 0;
            while i < 4
                invariant
                    k < 4,
                    i <= 4,
                    g0.len() == 16,
                    values_le(g0, usize::MAX as int / 2),
                    cells@ == partial_grid(d, g0, k as int, i as int),
                    executed_move == (lines_moved_before(d, g0, k as int) || moved_prefix(
                        line_of(d, g0, k as int),
                        i as int,
                    )),
                decreases 4 - i,
            {
                let ghost ki = k as int;
                let ghost ii = i as int;
                let ghost l0 = line_of(d, g0, ki);
                let ghost l = settle_prefix(l0, ii);
                proof {
                    lemma_partial_transition(d, g0, ki, ii);
                    lemma_line_geometry(d, ki, ii);
                    lemma_settle_len(l0, ii);
                    lemma_settle_suffix(l0, ii, ii);
                }
                let (x, y): (usize, usize) = match d {
                    MoveDirection::Up => (k, i),
                    MoveDirection::Down => (k, 3 - i),
                    MoveDirection::Left => (i, k),
                    MoveDirection::Right => (3 - i, k),
                };
                proof {
                    assert(Position { x, y } == line_pos(d, ki, ii));
                    assert(x * 4 + y == line_slot(d, ki, ii));
                }
                let cell = cells[x * 4 + y];
                proof {
                    assert(cell == l[ii]);
                    assert(cell == l0[ii]);
                }
                match cell {
                    Cell::Occupied(n) => {
                        proof {
                            assert(crate::model::cell_le(g0[line_slot(d, ki, ii)], usize::MAX as int / 2));
                            assert(n <= usize::MAX / 2);
                        }
                        let modifications = Self::build_modifications(d, x, y);
                        proof {
                            assert(modifications@ == path_spec(d, ki, ii));
                            assert forall|j: int| 0 <= j < modifications@.len() implies pos_in_range(
                                #[trigger] modifications@[j],
                            ) by {
                                lemma_line_geometry(d, ki, ii - 1 - j);
                            }
                        }
                        let ghost gc = cells@;
                        let did = self.try_apply_modifications(
                            &mut cells,
                            modifications,
                            n,
                            Position::new(x, y),
                        );
                        proof {
                            lemma_walk_path(gc, d, ki, ii, n);
                            crate::moves::lemma_blocker_props(l, ii);
                            assert(line_of(d, gc, ki) == l);
                            match decision(l, ii, n) {
                                Option::None => {
                                    assert(cells@ == partial_grid(d, g0, ki, ii + 1));
                                    assert(!did);
                                }
                                Option::Some((c, t)) => {
                                    lemma_line_geometry(d, ki, t);
                                    assert(pos_index(line_pos(d, ki, t)) == line_slot(d, ki, t));
                                    assert(cells@ == gc.update(line_slot(d, ki, t), c).update(
                                        line_slot(d, ki, ii),
                                        Cell::Empty,
                                    ));
                                    assert(cells@ == partial_grid(d, g0, ki, ii + 1));
                                    assert(did);
                                }
                            }
                            assert(did == step_moves(l, ii));
                        }
                        executed_move = executed_move || did;
                    }
                    Cell::Empty => {
                        proof {
                            assert(cells@ == partial_grid(d, g0, ki, ii + 1));
                            assert(!step_moves(l, ii));
                        }
                    }
                }
                i += 1;
            }
            proof {
                lemma_partial_line_done(d, g0, k as int);
            }
            k += 1;
        }
        proof {
            lemma_partial_finish(d, g0);
            lemma_lines_moved_all(d, g0);
        }
        (executed_move, cells)
    }

    /// An element-wise copy of a grid vector.
    fn clone_cells(cells: &Vec<Cell>) -> (out: Vec<Cell>)
        ensures
            out@ == cells@,
    {
        let mut out: Vec<Cell> = Vec::new();
        let mut t: usize = 0;
        while t < cells.len()
            invariant
                t <= cells@.len(),
                out@.len() == t,
                forall|j: int| 0 <= j < t ==> #[trigger] out@[j] == cells@[j],
            decreases cells@.len() - t,
        {
            out.push(cells[t]);
            t += 1;
        }
        proof {
            assert(out@ =~= cells@);
        }
        out
    }

    /// Probes all four directions on a copy of the grid: whether any of
    /// them would move or merge a tile.
    pub fn can_move(&self) -> (r: bool)
        requires
            self.grid().len() == 16,
            values_le(self.grid(), usize::MAX as int / 2),
        ensures
            r == can_any_move(self.grid()),
    {
        let (moved_up, _) = self.move_command(MoveDirection::Up, Self::clone_cells(&self.cells));
        let (moved_right, _) = self.move_command(
            MoveDirection::Right,
            Self::clone_cells(&self.cells),
        );
        let (moved_down, _) = self.move_command(
            MoveDirection::Down,
            Self::clone_cells(&self.cells),
        );
        let (moved_left, _) = self.move_command(
            MoveDirection::Left,
            Self::clone_cells(&self.cells),
        );
        let can_move = moved_up || moved_right || moved_down || moved_left;
        proof {
            if can_move {
                assert(can_any_move(self.grid()));
            } else {
                assert forall|dd: MoveDirection| !move_moves(dd, self.grid()) by {
                    if dd is Up {
                    } else if dd is Right {
                    } else if dd is Down {
                    } else {
                        assert(dd is Left);
                    }
                }
            }
        }
        can_move
    }
}

/// What one committed move does to a board: the grid slides, a tile spawns
/// when the slide changed anything, and the returned phase classifies the
/// resulting grid, with a loss checked before a win and the win signal
/// fired at most once per session.
pub open spec fn move_outcome(b0: Gameboard, d: MoveDirection, b1: Gameboard, s: GameState) -> bool {
    let moved = move_moves(d, b0.grid());
    let g1 = move_spec(d, b0.grid());
    &&& (if moved {
        spawn_result(g1, b1.grid())
    } else {
        b1.grid() == g1
    })
    &&& (s is Lost <==> !can_any_move(b1.grid()))
    &&& (s is Won <==> can_any_move(b1.grid()) && !b0.won_flag() && contains_2048(b1.grid()))
    &&& (s is Playing <==> can_any_move(b1.grid()) && !(!b0.won_flag() && contains_2048(b1.grid())))
    &&& b1.won_flag() == (b0.won_flag() || s is Won)
}

impl Gameboard {
    /// The committing entry point: slides the grid in the given direction,
    /// spawns a tile if the grid changed, and evaluates the phase.  A loss
    /// is checked before a win, and the win signal fires at most once.
    pub fn handle_move(&mut self, move_direction: MoveDirection) -> (state: GameState)
        requires
            old(self).wf(),
            values_le(old(self).grid(), usize::MAX as int / 4),
        ensures
            final(self).wf(),
            values_le(final(self).grid(), usize::MAX as int / 2),
            move_outcome(*old(self), move_direction, *final(self), state),
    {
        proof {
            assert(values_le(old(self).grid(), usize::MAX as int / 2));
            lemma_move_preserves(move_direction, old(self).grid(), usize::MAX as int / 4);
        }
        let board = Self::clone_cells(&self.cells);
        let (moved, board_after_move) = self.move_command(move_direction, board);
        self.cells = board_after_move;
        if moved {
            self.maybe_add_new_cells();
            proof {
                lemma_two_is_power_of_two();
                assert(values_le(self.grid(), usize::MAX as int / 2));
            }
        }
        let can_still_move = self.can_move();
        if !can_still_move {
            return GameState::Lost;
        }
        if !self.has_already_won && self.has_won() {
            self.has_already_won = true;
            return GameState::Won;
        }
        GameState::Playing
    }
}

} // verus!
