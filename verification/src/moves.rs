//! Spec model of the slide-and-merge move.
//!
//! A move decomposes the grid into four independent lines: columns for
//! vertical moves, rows for horizontal ones.  Each line is viewed as a
//! sequence of four cells whose slot 0 is the edge the tiles move toward.
//! A line is settled slot by slot from that edge outward, exactly as the
//! executable scan does: the tile in the slot under consideration walks
//! toward the edge through empty slots and either merges with the first
//! occupied slot it meets (when the values are equal), stops right behind
//! it, or slides to the farthest empty slot.

use vstd::prelude::*;

use crate::board::Cell;
use crate::board::MoveDirection;
use crate::board::Position;
use crate::model::cell_le;
use crate::model::lemma_double_power_of_two;
use crate::model::valid_cell;
use crate::model::values_le;
use crate::model::wf_grid;

verus! {

// ---------------------------------------------------------------------------
// Lines and slots
// ---------------------------------------------------------------------------
/// Flat grid index of slot `i` of line `k` under direction `d`.
pub open spec fn line_slot(d: MoveDirection, k: int, i: int) -> int {
    match d {
        MoveDirection::Up => k * 4 + i,
        MoveDirection::Down => k * 4 + (3 - i),
        MoveDirection::Left => i * 4 + k,
        MoveDirection::Right => (3 - i) * 4 + k,
    }
}

/// Which line the flat grid index `t` belongs to under direction `d`.
pub open spec fn line_no(d: MoveDirection, t: int) -> int {
    match d {
        MoveDirection::Up => t / 4,
        MoveDirection::Down => t / 4,
        MoveDirection::Left => t % 4,
        MoveDirection::Right => t % 4,
    }
}

/// Which slot of its line the flat grid index `t` occupies.
pub open spec fn slot_no(d: MoveDirection, t: int) -> int {
    match d {
        MoveDirection::Up => t % 4,
        MoveDirection::Down => 3 - t % 4,
        MoveDirection::Left => t / 4,
        MoveDirection::Right => 3 - t / 4,
    }
}

/// Line `k` of the grid, read slot by slot.
pub open spec fn line_of(d: MoveDirection, g: Seq<Cell>, k: int) -> Seq<Cell> {
    Seq::new(4, |i: int| g[line_slot(d, k, i)])
}

/// Grid coordinate of slot `i` of line `k`.
pub open spec fn line_pos(d: MoveDirection, k: int, i: int) -> Position {
    match d {
        MoveDirection::Up => Position { x: k as usize, y: i as usize },
        MoveDirection::Down => Position { x: k as usize, y: (3 - i) as usize },
        MoveDirection::Left => Position { x: i as usize, y: k as usize },
        MoveDirection::Right => Position { x: (3 - i) as usize, y: k as usize },
    }
}

/// Flat grid index of a coordinate.
pub open spec fn pos_index(p: Position) -> int {
    p.x * 4 + p.y
}

/// The coordinate lies on the board.
pub open spec fn pos_in_range(p: Position) -> bool {
    p.x < 4 && p.y < 4
}

pub proof fn lemma_line_geometry(d: MoveDirection, k: int, i: int)
    requires
        0 <= k < 4,
        0 <= i < 4,
    ensures
        0 <= line_slot(d, k, i) < 16,
        line_no(d, line_slot(d, k, i)) == k,
        slot_no(d, line_slot(d, k, i)) == i,
        pos_in_range(line_pos(d, k, i)),
        pos_index(line_pos(d, k, i)) == line_slot(d, k, i),
{
}

pub proof fn lemma_slot_of_index(d: MoveDirection, t: int)
    requires
        0 <= t < 16,
    ensures
        0 <= line_no(d, t) < 4,
        0 <= slot_no(d, t) < 4,
        line_slot(d, line_no(d, t), slot_no(d, t)) == t,
{
}

// ---------------------------------------------------------------------------
// Settling one line
// ---------------------------------------------------------------------------
/// Index of the first occupied slot strictly before `i`, seen from `i`
/// toward the edge; `-1` when all of them are empty.
pub open spec fn blocker(l: Seq<Cell>, i: int) -> int
    decreases i,
{
    if i <= 0 {
        -1
    } else if l[i - 1] is Occupied {
        i - 1
    } else {
        blocker(l, i - 1)
    }
}

/// What happens to a tile of value `n` sitting in slot `i`: the new cell
/// content and the slot it lands in, or `None` when the tile stays put.
pub open spec fn decision(l: Seq<Cell>, i: int, n: usize) -> Option<(Cell, int)> {
    let b = blocker(l, i);
    if i <= 0 {
        Option::None
    } else if b < 0 {
        Option::Some((Cell::Occupied(n), 0int))
    } else if l[b] == Cell::Occupied(n) {
        Option::Some((Cell::Occupied((n + n) as usize), b))
    } else if b + 1 < i {
        Option::Some((Cell::Occupied(n), b + 1))
    } else {
        Option::None
    }
}

/// Settling the tile of slot `i` against the current line state.
pub open spec fn step(l: Seq<Cell>, i: int) -> Seq<Cell> {
    match l[i] {
        Cell::Empty => l,
        Cell::Occupied(n) => match decision(l, i, n) {
            Option::None => l,
            Option::Some((c, t)) => l.update(t, c).update(i, Cell::Empty),
        },
    }
}

/// Whether settling slot `i` changes the line.
pub open spec fn step_moves(l: Seq<Cell>, i: int) -> bool {
    l[i] is Occupied && decision(l, i, l[i]->0) is Some
}

/// The line after the first `k` slots have been settled in order.
pub open spec fn settle_prefix(l: Seq<Cell>, k: int) -> Seq<Cell>
    decreases k,
{
    if k <= 0 {
        l
    } else {
        step(settle_prefix(l, k - 1), k - 1)
    }
}

/// Whether any of the first `k` settling steps moved a tile.
pub open spec fn moved_prefix(l: Seq<Cell>, k: int) -> bool
    decreases k,
{
    if k <= 0 {
        false
    } else {
        moved_prefix(l, k - 1) || step_moves(settle_prefix(l, k - 1), k - 1)
    }
}

/// The whole line after a move along it.
pub open spec fn slide_line(l: Seq<Cell>) -> Seq<Cell> {
    settle_prefix(l, 4)
}

/// Whether a move along the line moves or merges any tile.
pub open spec fn line_moves(l: Seq<Cell>) -> bool {
    moved_prefix(l, 4)
}

// ---------------------------------------------------------------------------
// The whole-grid move
// ---------------------------------------------------------------------------
/// The grid after a move in direction `d`: every line slides independently.
pub open spec fn move_spec(d: MoveDirection, g: Seq<Cell>) -> Seq<Cell> {
    Seq::new(16, |t: int| slide_line(line_of(d, g, line_no(d, t)))[slot_no(d, t)])
}

/// Whether a move in direction `d` moves or merges any tile.
pub open spec fn move_moves(d: MoveDirection, g: Seq<Cell>) -> bool {
    exists|k: int| 0 <= k < 4 && line_moves(#[trigger] line_of(d, g, k))
}

/// Whether any of the four directions would move a tile.
pub open spec fn can_any_move(g: Seq<Cell>) -> bool {
    exists|d: MoveDirection| #[trigger] move_moves(d, g)
}

/// `move_moves` over the lines visited so far, line by line.
pub open spec fn lines_moved_before(d: MoveDirection, g: Seq<Cell>, k: int) -> bool
    decreases k,
{
    if k <= 0 {
        false
    } else {
        lines_moved_before(d, g, k - 1) || line_moves(line_of(d, g, k - 1))
    }
}

pub proof fn lemma_lines_moved_all(d: MoveDirection, g: Seq<Cell>)
    ensures
        lines_moved_before(d, g, 4) == move_moves(d, g),
{
    reveal_with_fuel(lines_moved_before, 5);
    if move_moves(d, g) {
        let k = choose|k: int| 0 <= k < 4 && line_moves(#[trigger] line_of(d, g, k));
        assert(k == 0 || k == 1 || k == 2 || k == 3);
        assert(lines_moved_before(d, g, 4));
    }
}

// ---------------------------------------------------------------------------
// Basic facts about settling
// ---------------------------------------------------------------------------
pub proof fn lemma_blocker_props(l: Seq<Cell>, i: int)
    requires
        0 <= i,
    ensures
        -1 <= blocker(l, i) < i,
        blocker(l, i) >= 0 ==> l[blocker(l, i)] is Occupied,
        forall|j: int| blocker(l, i) < j < i ==> (#[trigger] l[j]) is Empty,
    decreases i,
{
    if i > 0 && !(l[i - 1] is Occupied) {
        lemma_blocker_props(l, i - 1);
    }
}

pub proof fn lemma_settle_len(l: Seq<Cell>, k: int)
    requires
        l.len() == 4,
        0 <= k <= 4,
    ensures
        settle_prefix(l, k).len() == l.len(),
    decreases k,
{
    if k > 0 {
        lemma_settle_len(l, k - 1);
        lemma_blocker_props(settle_prefix(l, k - 1), k - 1);
    }
}

/// Settling the first `k` slots leaves every slot at or beyond `k` as it was.
pub proof fn lemma_settle_suffix(l: Seq<Cell>, k: int, j: int)
    requires
        l.len() == 4,
        0 <= k <= j < 4,
    ensures
        settle_prefix(l, k)[j] == l[j],
    decreases k,
{
    if k > 0 {
        lemma_settle_suffix(l, k - 1, j);
        let lp = settle_prefix(l, k - 1);
        lemma_settle_len(l, k - 1);
        lemma_blocker_props(lp, k - 1);
    }
}

// ---------------------------------------------------------------------------
// The walk over candidate target positions
// ---------------------------------------------------------------------------
/// What walking an ordered list of candidate target positions yields for a
/// tile of value `n`: remember the farthest empty position reached so far,
/// stop at the first occupied one, merging with it when the values match.
/// This is the exact behaviour of `try_apply_modifications`.
pub open spec fn walk(g: Seq<Cell>, mods: Seq<Position>, n: usize) -> Option<(Cell, Position)>
    decreases mods.len(),
{
    if mods.len() == 0 {
        Option::None
    } else {
        match g[pos_index(mods[0])] {
            Cell::Empty => match walk(g, mods.drop_first(), n) {
                Option::Some(r) => Option::Some(r),
                Option::None => Option::Some((Cell::Occupied(n), mods[0])),
            },
            Cell::Occupied(m) => if m == n {
                Option::Some((Cell::Occupied((n + n) as usize), mods[0]))
            } else {
                Option::None
            },
        }
    }
}

/// The candidate targets for the tile in slot `i` of line `k`: the slots
/// strictly between it and the board edge, nearest first.
pub open spec fn path_spec(d: MoveDirection, k: int, i: int) -> Seq<Position> {
    Seq::new(i as nat, |j: int| line_pos(d, k, i - 1 - j))
}

/// Walking the candidate targets of slot `i` reaches exactly the decision
/// that the line model takes for a tile of value `n` in that slot.
pub proof fn lemma_walk_path(g: Seq<Cell>, d: MoveDirection, k: int, i: int, n: usize)
    requires
        g.len() == 16,
        0 <= k < 4,
        0 <= i < 4,
    ensures
        match decision(line_of(d, g, k), i, n) {
            Option::None => walk(g, path_spec(d, k, i), n) is None,
            Option::Some((c, t)) => walk(g, path_spec(d, k, i), n) == Option::Some(
                (c, line_pos(d, k, t)),
            ),
        },
    decreases i,
{
    let l = line_of(d, g, k);
    let p = path_spec(d, k, i);
    lemma_blocker_props(l, i);
    if i > 0 {
        lemma_line_geometry(d, k, i - 1);
        assert(p[0] == line_pos(d, k, i - 1));
        assert(g[pos_index(p[0])] == l[i - 1]);
        match l[i - 1] {
            Cell::Occupied(m) => {
                assert(blocker(l, i) == i - 1);
            }
            Cell::Empty => {
                assert(p.drop_first() =~= path_spec(d, k, i - 1));
                lemma_walk_path(g, d, k, i - 1, n);
                assert(blocker(l, i) == blocker(l, i - 1));
                lemma_blocker_props(l, i - 1);
            }
        }
    }
}

// ---------------------------------------------------------------------------
// The grid in mid-scan
// ---------------------------------------------------------------------------
/// The grid once the lines before `k` are fully settled and the first `i`
/// slots of line `k` are settled.
pub open spec fn partial_grid(d: MoveDirection, g: Seq<Cell>, k: int, i: int) -> Seq<Cell> {
    Seq::new(
        16,
        |t: int|
            if line_no(d, t) < k {
                slide_line(line_of(d, g, line_no(d, t)))[slot_no(d, t)]
            } else if line_no(d, t) == k {
                settle_prefix(line_of(d, g, line_no(d, t)), i)[slot_no(d, t)]
            } else {
                g[t]
            },
    )
}

pub proof fn lemma_partial_start(d: MoveDirection, g: Seq<Cell>)
    requires
        g.len() == 16,
    ensures
        partial_grid(d, g, 0, 0) == g,
{
    assert forall|t: int| 0 <= t < 16 implies partial_grid(d, g, 0, 0)[t] == g[t] by {
        lemma_slot_of_index(d, t);
    }
    assert(partial_grid(d, g, 0, 0) =~= g);
}

pub proof fn lemma_partial_line_done(d: MoveDirection, g: Seq<Cell>, k: int)
    requires
        g.len() == 16,
        0 <= k < 4,
    ensures
        partial_grid(d, g, k, 4) == partial_grid(d, g, k + 1, 0),
{
    assert forall|t: int| 0 <= t < 16 implies partial_grid(d, g, k, 4)[t] == partial_grid(
        d,
        g,
        k + 1,
        0,
    )[t] by {
        lemma_slot_of_index(d, t);
    }
    assert(partial_grid(d, g, k, 4) =~= partial_grid(d, g, k + 1, 0));
}

pub proof fn lemma_partial_finish(d: MoveDirection, g: Seq<Cell>)
    requires
        g.len() == 16,
    ensures
        partial_grid(d, g, 4, 0) == move_spec(d, g),
{
    assert(partial_grid(d, g, 4, 0) =~= move_spec(d, g));
}

/// How one settling step of the line model shows up on the mid-scan grid:
/// the current cell of the grid is the current slot of the line, and the
/// pair of point updates that the executable scan performs takes the grid
/// to the next mid-scan state.
pub proof fn lemma_partial_transition(d: MoveDirection, g: Seq<Cell>, k: int, i: int)
    requires
        g.len() == 16,
        0 <= k < 4,
        0 <= i < 4,
    ensures
        ({
            let gc = partial_grid(d, g, k, i);
            let l = settle_prefix(line_of(d, g, k), i);
            &&& line_of(d, gc, k) == l
            &&& gc[line_slot(d, k, i)] == l[i]
            &&& match l[i] {
                Cell::Empty => partial_grid(d, g, k, i + 1) == gc,
                Cell::Occupied(n) => match decision(l, i, n) {
                    Option::None => partial_grid(d, g, k, i + 1) == gc,
                    Option::Some((c, t)) => partial_grid(d, g, k, i + 1) == gc.update(
                        line_slot(d, k, t),
                        c,
                    ).update(line_slot(d, k, i), Cell::Empty),
                },
            }
        }),
{
    let l0 = line_of(d, g, k);
    let gc = partial_grid(d, g, k, i);
    let l = settle_prefix(l0, i);
    lemma_settle_len(l0, i);
    assert forall|ii: int| 0 <= ii < 4 implies line_of(d, gc, k)[ii] == l[ii] by {
        lemma_line_geometry(d, k, ii);
    }
    assert(line_of(d, gc, k) =~= l);
    lemma_line_geometry(d, k, i);
    assert(gc[line_slot(d, k, i)] == l[i]);
    assert(settle_prefix(l0, i + 1) == step(l, i));
    match l[i] {
        Cell::Empty => {
            assert forall|t: int| 0 <= t < 16 implies partial_grid(d, g, k, i + 1)[t] == gc[t] by {
                lemma_slot_of_index(d, t);
            }
            assert(partial_grid(d, g, k, i + 1) =~= gc);
        }
        Cell::Occupied(n) => {
            lemma_blocker_props(l, i);
            match decision(l, i, n) {
                Option::None => {
                    assert forall|t: int| 0 <= t < 16 implies partial_grid(d, g, k, i + 1)[t]
                        == gc[t] by {
                        lemma_slot_of_index(d, t);
                    }
                    assert(partial_grid(d, g, k, i + 1) =~= gc);
                }
                Option::Some((c, t)) => {
                    assert(0 <= t < 4 && t != i);
                    lemma_line_geometry(d, k, t);
                    let gc2 = gc.update(line_slot(d, k, t), c).update(
                        line_slot(d, k, i),
                        Cell::Empty,
                    );
                    assert forall|u: int| 0 <= u < 16 implies partial_grid(d, g, k, i + 1)[u]
                        == gc2[u] by {
                        lemma_slot_of_index(d, u);
                        let kk = line_no(d, u);
                        let ii = slot_no(d, u);
                        lemma_line_geometry(d, k, i);
                        if kk == k {
                            assert(step(l, i) == l.update(t, c).update(i, Cell::Empty));
                            if ii == i {
                                assert(gc2[u] == Cell::Empty);
                            } else if ii == t {
                                assert(u != line_slot(d, k, i));
                                assert(gc2[u] == c);
                            } else {
                                assert(u != line_slot(d, k, i) && u != line_slot(d, k, t));
                            }
                        } else {
                            assert(line_no(d, line_slot(d, k, t)) == k);
                            assert(line_no(d, line_slot(d, k, i)) == k);
                            assert(u != line_slot(d, k, i) && u != line_slot(d, k, t));
                        }
                    }
                    assert(partial_grid(d, g, k, i + 1) =~= gc2);
                }
            }
        }
    }
}

// ---------------------------------------------------------------------------
// Settling preserves validity and bounds
// ---------------------------------------------------------------------------
/// Settling a line of valid cells yields valid cells, and at most doubles
/// the largest value: every merge doubles a value that the unsettled line
/// already held, because the slot being settled has not been touched yet.
pub proof fn lemma_settle_preserves(l: Seq<Cell>, k: int, bound: int)
    requires
        l.len() == 4,
        0 <= k <= 4,
        0 <= bound,
        2 * bound <= usize::MAX,
        values_le(l, bound),
        forall|i: int| 0 <= i < 4 ==> valid_cell(#[trigger] l[i]),
    ensures
        settle_prefix(l, k).len() == 4,
        values_le(settle_prefix(l, k), 2 * bound),
        forall|i: int| 0 <= i < 4 ==> valid_cell(#[trigger] settle_prefix(l, k)[i]),
    decreases k,
{
    if k > 0 {
        lemma_settle_preserves(l, k - 1, bound);
        let lp = settle_prefix(l, k - 1);
        lemma_blocker_props(lp, k - 1);
        lemma_settle_suffix(l, k - 1, k - 1);
        match lp[k - 1] {
            Cell::Empty => {}
            Cell::Occupied(n) => {
                assert(cell_le(l[k - 1], bound));
                assert(valid_cell(l[k - 1]));
                match decision(lp, k - 1, n) {
                    Option::None => {}
                    Option::Some((c, t)) => {
                        lemma_double_power_of_two(n as nat);
                        assert(0 <= t < 4);
                        assert(forall|i: int|
                            0 <= i < 4 ==> valid_cell(#[trigger] lp[i]) && cell_le(lp[i], 2 * bound));
                        assert forall|i: int| 0 <= i < 4 implies valid_cell(
                            #[trigger] settle_prefix(l, k)[i],
                        ) && cell_le(settle_prefix(l, k)[i], 2 * bound) by {
                            if i == k - 1 {
                            } else if i == t {
                                assert(settle_prefix(l, k)[i] == c);
                            } else {
                                assert(settle_prefix(l, k)[i] == lp[i]);
                            }
                        }
                    }
                }
            }
        }
    }
}

/// A move preserves well-formedness and at most doubles the largest value.
pub proof fn lemma_move_preserves(d: MoveDirection, g: Seq<Cell>, bound: int)
    requires
        wf_grid(g),
        values_le(g, bound),
        0 <= bound,
        2 * bound <= usize::MAX,
    ensures
        wf_grid(move_spec(d, g)),
        values_le(move_spec(d, g), 2 * bound),
{
    assert forall|t: int| 0 <= t < 16 implies valid_cell(#[trigger] move_spec(d, g)[t]) && cell_le(
        move_spec(d, g)[t],
        2 * bound,
    ) by {
        lemma_slot_of_index(d, t);
        let k = line_no(d, t);
        let l0 = line_of(d, g, k);
        assert forall|ii: int| 0 <= ii < 4 implies valid_cell(#[trigger] l0[ii]) && cell_le(
            l0[ii],
            bound,
        ) by {
            lemma_line_geometry(d, k, ii);
        }
        lemma_settle_preserves(l0, 4, bound);
    }
}

} // verus!
