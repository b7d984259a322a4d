//! Mathematical model of the 4x4 grid.
//!
//! The grid is modelled as a flat `Seq<Cell>` of length 16; the cell at
//! column `x` and row `y` sits at index `x * 4 + y`.  This module holds
//! the spec functions that classify grids (well-formedness, counts,
//! win detection) and the basic lemmas about them.  The model of the
//! slide-and-merge move itself lives in `moves`.

use vstd::prelude::*;

use crate::board::Cell;

verus! {

/// `v` is a power of two (1, 2, 4, 8, ...).
pub open spec fn is_power_of_two(v: nat) -> bool
    decreases v,
{
    if v == 1 {
        true
    } else if v < 2 || v % 2 != 0 {
        false
    } else {
        is_power_of_two(v / 2)
    }
}

/// A cell is either empty or holds a power of two worth at least 2.
pub open spec fn valid_cell(c: Cell) -> bool {
    c matches Cell::Occupied(v) ==> (2 <= v && is_power_of_two(v as nat))
}

/// A well-formed grid: 16 cells, each of them valid.
pub open spec fn wf_grid(g: Seq<Cell>) -> bool {
    &&& g.len() == 16
    &&& forall|i: int| 0 <= i < 16 ==> valid_cell(#[trigger] g[i])
}

/// The cell is empty or holds a value of at most `bound`.
pub open spec fn cell_le(c: Cell, bound: int) -> bool {
    c matches Cell::Occupied(v) ==> v <= bound
}

/// Every occupied cell of the grid holds at most `bound`.
pub open spec fn values_le(g: Seq<Cell>, bound: int) -> bool {
    forall|i: int| 0 <= i < g.len() ==> cell_le(#[trigger] g[i], bound)
}

/// Number of occupied cells among the first `k`.
pub open spec fn occ_in_prefix(g: Seq<Cell>, k: int) -> int
    decreases k,
{
    if k <= 0 {
        0
    } else {
        occ_in_prefix(g, k - 1) + (if g[k - 1] is Occupied {
            1int
        } else {
            0int
        })
    }
}

/// Number of occupied cells of the whole grid.
pub open spec fn occupied_count(g: Seq<Cell>) -> int {
    occ_in_prefix(g, 16)
}

/// Number of empty cells among the first `k`.
pub open spec fn empties_in_prefix(g: Seq<Cell>, k: int) -> int
    decreases k,
{
    if k <= 0 {
        0
    } else {
        empties_in_prefix(g, k - 1) + (if g[k - 1] is Empty {
            1int
        } else {
            0int
        })
    }
}

/// Occupied and empty cells together account for every cell of a prefix.
pub proof fn lemma_counts(g: Seq<Cell>, k: int)
    requires
        0 <= k,
    ensures
        occ_in_prefix(g, k) + empties_in_prefix(g, k) == k,
        0 <= occ_in_prefix(g, k) <= k,
        0 <= empties_in_prefix(g, k) <= k,
    decreases k,
{
    if k > 0 {
        lemma_counts(g, k - 1);
    }
}

/// Value carried by a cell: the tile's value, or 0 when empty.
pub open spec fn cell_value(c: Cell) -> int {
    match c {
        Cell::Occupied(n) => n as int,
        Cell::Empty => 0,
    }
}

/// Sum of the tile values among the first `k` cells.
pub open spec fn value_in_prefix(g: Seq<Cell>, k: int) -> int
    decreases k,
{
    if k <= 0 {
        0
    } else {
        value_in_prefix(g, k - 1) + cell_value(g[k - 1])
    }
}

/// Sum of all tile values of the grid.
pub open spec fn total_value(g: Seq<Cell>) -> int {
    value_in_prefix(g, 16)
}

/// Every cell on which `g1` differs from `g0` is one of the four given
/// positions: at most four cells changed, fewer when positions coincide.
pub open spec fn changes_within(
    g0: Seq<Cell>,
    g1: Seq<Cell>,
    p1: int,
    p2: int,
    p3: int,
    p4: int,
) -> bool {
    forall|i: int|
        0 <= i < g0.len() && (#[trigger] g1[i]) != g0[i] ==> (i == p1 || i == p2 || i == p3 || i
            == p4)
}

/// A grid whose occupied cells all lie on four given positions holds at
/// most four tiles.
pub proof fn lemma_occ_within(g: Seq<Cell>, k: int, p1: int, p2: int, p3: int, p4: int)
    requires
        0 <= k <= g.len(),
        forall|i: int|
            0 <= i < g.len() && (#[trigger] g[i]) is Occupied ==> (i == p1 || i == p2 || i == p3
                || i == p4),
    ensures
        occ_in_prefix(g, k) <= (if 0 <= p1 < k {
            1int
        } else {
            0int
        }) + (if 0 <= p2 < k {
            1int
        } else {
            0int
        }) + (if 0 <= p3 < k {
            1int
        } else {
            0int
        }) + (if 0 <= p4 < k {
            1int
        } else {
            0int
        }),
    decreases k,
{
    if k > 0 {
        lemma_occ_within(g, k - 1, p1, p2, p3, p4);
    }
}

/// A grid with an occupied cell holds at least one tile.
pub proof fn lemma_occ_lower(g: Seq<Cell>, k: int, p: int)
    requires
        0 <= p < g.len(),
        g[p] is Occupied,
        0 <= k <= g.len(),
    ensures
        occ_in_prefix(g, k) >= if p < k {
            1int
        } else {
            0int
        },
        0 <= occ_in_prefix(g, k),
    decreases k,
{
    if k > 0 {
        lemma_occ_lower(g, k - 1, p);
    }
}

/// The grid holds a tile of exactly 2048 somewhere.
pub open spec fn contains_2048(g: Seq<Cell>) -> bool {
    exists|i: int| 0 <= i < g.len() && #[trigger] g[i] == Cell::Occupied(2048usize)
}

/// Every cell of `g1` is either what it was in `g0` or a freshly placed 2.
pub open spec fn only_twos_added(g0: Seq<Cell>, g1: Seq<Cell>) -> bool {
    &&& g1.len() == g0.len()
    &&& forall|i: int|
        0 <= i < g0.len() ==> (#[trigger] g1[i] == g0[i] || g1[i] == Cell::Occupied(2usize))
}

/// What spawning one tile does: if the grid has room, exactly one empty
/// cell now holds a 2 and nothing else changed; a full grid is untouched.
pub open spec fn spawn_result(g1: Seq<Cell>, g2: Seq<Cell>) -> bool {
    if occupied_count(g1) < 16 {
        exists|i: int|
            0 <= i < 16 && #[trigger] g1[i] is Empty && g2 == g1.update(i, Cell::Occupied(2usize))
    } else {
        g2 == g1
    }
}

/// 2 is a power of two; spelled out once so that callers need not unfold
/// the recursive definition themselves.
pub proof fn lemma_two_is_power_of_two()
    ensures
        is_power_of_two(2),
{
    reveal_with_fuel(is_power_of_two, 2);
}

/// Doubling keeps a value a power of two.
pub proof fn lemma_double_power_of_two(v: nat)
    requires
        is_power_of_two(v),
    ensures
        is_power_of_two(2 * v),
{
    reveal_with_fuel(is_power_of_two, 2);
    assert((2 * v) % 2 == 0 && (2 * v) / 2 == v) by (nonlinear_arith);
}

} // verus!
