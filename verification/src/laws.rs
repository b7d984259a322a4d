//! General laws of the move algorithm, stated and proved once.

use vstd::prelude::*;

use crate::board::Cell;
use crate::board::GameState;
use crate::board::Gameboard;
use crate::board::MoveDirection;
use crate::board::move_outcome;
use crate::model::cell_le;
use crate::model::cell_value;
use crate::model::occ_in_prefix;
use crate::model::occupied_count;
use crate::model::total_value;
use crate::model::value_in_prefix;
use crate::model::values_le;
use crate::moves::blocker;
use crate::moves::decision;
use crate::moves::lemma_blocker_props;
use crate::moves::lemma_line_geometry;
use crate::moves::lemma_settle_len;
use crate::moves::lemma_settle_suffix;
use crate::moves::lemma_slot_of_index;
use crate::moves::line_moves;
use crate::moves::line_no;
use crate::moves::line_of;
use crate::moves::line_slot;
use crate::moves::move_moves;
use crate::moves::move_spec;
use crate::moves::moved_prefix;
use crate::moves::settle_prefix;
use crate::moves::slide_line;
use crate::moves::slot_no;
use crate::moves::step;
use crate::moves::step_moves;

verus! {

/// Sum of the slot indices of the occupied slots among the first `k`.
/// Together with the occupied count this is a measure that every settling
/// step decreases lexicographically: a merge removes a tile, a slide moves
/// one strictly toward slot 0.
spec fn occ_weight(l: Seq<Cell>, k: int) -> int
    decreases k,
{
    if k <= 0 {
        0
    } else {
        occ_weight(l, k - 1) + (if l[k - 1] is Occupied {
            k - 1
        } else {
            0int
        })
    }
}

proof fn lemma_measure_update(l: Seq<Cell>, k: int, t: int, c: Cell)
    requires
        0 <= t < l.len(),
        0 <= k <= l.len(),
    ensures
        occ_in_prefix(l.update(t, c), k) == occ_in_prefix(l, k) + (if t < k {
            (if c is Occupied {
                1int
            } else {
                0int
            }) - (if l[t] is Occupied {
                1int
            } else {
                0int
            })
        } else {
            0int
        }),
        occ_weight(l.update(t, c), k) == occ_weight(l, k) + (if t < k {
            (if c is Occupied {
                t
            } else {
                0int
            }) - (if l[t] is Occupied {
                t
            } else {
                0int
            })
        } else {
            0int
        }),
    decreases k,
{
    if k > 0 {
        lemma_measure_update(l, k - 1, t, c);
    }
}

proof fn lemma_step_measure(l: Seq<Cell>, i: int)
    requires
        l.len() == 4,
        0 <= i < 4,
    ensures
        !step_moves(l, i) ==> step(l, i) == l,
        occ_in_prefix(step(l, i), 4) <= occ_in_prefix(l, 4),
        occ_in_prefix(step(l, i), 4) == occ_in_prefix(l, 4) ==> occ_weight(step(l, i), 4)
            <= occ_weight(l, 4),
        step_moves(l, i) ==> (occ_in_prefix(step(l, i), 4) < occ_in_prefix(l, 4) || occ_weight(
            step(l, i),
            4,
        ) < occ_weight(l, 4)),
{
    lemma_blocker_props(l, i);
    match l[i] {
        Cell::Empty => {}
        Cell::Occupied(n) => {
            match decision(l, i, n) {
                Option::None => {}
                Option::Some((c, t)) => {
                    let l1 = l.update(t, c);
                    lemma_measure_update(l, 4, t, c);
                    lemma_measure_update(l1, 4, i, Cell::Empty);
                    assert(l1[i] == l[i]);
                }
            }
        }
    }
}

proof fn lemma_settle_measure(l: Seq<Cell>, k: int)
    requires
        l.len() == 4,
        0 <= k <= 4,
    ensures
        !moved_prefix(l, k) ==> settle_prefix(l, k) == l,
        occ_in_prefix(settle_prefix(l, k), 4) <= occ_in_prefix(l, 4),
        occ_in_prefix(settle_prefix(l, k), 4) == occ_in_prefix(l, 4) ==> occ_weight(
            settle_prefix(l, k),
            4,
        ) <= occ_weight(l, 4),
        moved_prefix(l, k) ==> (occ_in_prefix(settle_prefix(l, k), 4) < occ_in_prefix(l, 4)
            || occ_weight(settle_prefix(l, k), 4) < occ_weight(l, 4)),
    decreases k,
{
    if k > 0 {
        lemma_settle_measure(l, k - 1);
        lemma_settle_len(l, k - 1);
        lemma_step_measure(settle_prefix(l, k - 1), k - 1);
    }
}

/// A move along a line reports a moved tile exactly when it changes the
/// line.
pub proof fn lemma_line_moves_iff_changed(l: Seq<Cell>)
    requires
        l.len() == 4,
    ensures
        line_moves(l) <==> slide_line(l) != l,
{
    lemma_settle_measure(l, 4);
}

/// A move reports a moved tile exactly when it alters the grid.  With the
/// phase contract of `handle_move` this is the loss law: `Lost` is
/// reported precisely when no direction, probed purely, would alter the
/// grid.
pub proof fn lemma_move_moves_iff_changed(d: MoveDirection, g: Seq<Cell>)
    requires
        g.len() == 16,
    ensures
        move_moves(d, g) <==> move_spec(d, g) != g,
{
    if move_moves(d, g) {
        let k = choose|k: int| 0 <= k < 4 && line_moves(#[trigger] line_of(d, g, k));
        let l = line_of(d, g, k);
        let sl = slide_line(l);
        lemma_line_moves_iff_changed(l);
        lemma_settle_len(l, 4);
        assert(exists|ii: int| 0 <= ii < 4 && #[trigger] sl[ii] != l[ii]) by {
            if forall|ii: int| 0 <= ii < 4 ==> #[trigger] sl[ii] == l[ii] {
                assert(sl =~= l);
            }
        }
        let ii = choose|ii: int| 0 <= ii < 4 && #[trigger] sl[ii] != l[ii];
        lemma_line_geometry(d, k, ii);
        assert(move_spec(d, g)[line_slot(d, k, ii)] == sl[ii]);
        assert(g[line_slot(d, k, ii)] == l[ii]);
        assert(move_spec(d, g) != g);
    } else {
        assert forall|t: int| 0 <= t < 16 implies move_spec(d, g)[t] == g[t] by {
            lemma_slot_of_index(d, t);
            let k = line_no(d, t);
            let l = line_of(d, g, k);
            assert(!line_moves(l));
            lemma_settle_measure(l, 4);
        }
        assert(move_spec(d, g) =~= g);
    }
}

/// Settling slots that hold empty cells leaves the line untouched.
proof fn lemma_settle_extend_empty(l: Seq<Cell>, a: int, b: int)
    requires
        l.len() == 4,
        0 <= a <= b <= 4,
        forall|t: int| a <= t < b ==> (#[trigger] l[t]) is Empty,
    ensures
        settle_prefix(l, b) == settle_prefix(l, a),
        moved_prefix(l, b) == moved_prefix(l, a),
    decreases b - a,
{
    if a < b {
        lemma_settle_extend_empty(l, a, b - 1);
        lemma_settle_suffix(l, b - 1, b - 1);
        assert(settle_prefix(l, b - 1)[b - 1] == l[b - 1]);
    }
}

/// The occupied cells among the first `k` slots, in order.
pub open spec fn occupied_seq(l: Seq<Cell>, k: int) -> Seq<Cell>
    decreases k,
{
    if k <= 0 {
        Seq::empty()
    } else if l[k - 1] is Occupied {
        occupied_seq(l, k - 1).push(l[k - 1])
    } else {
        occupied_seq(l, k - 1)
    }
}

/// `c` is one of the occupied cells among the first `k` slots of `l`.
pub open spec fn from_line(l: Seq<Cell>, k: int, c: Cell) -> bool {
    exists|j: int| 0 <= j < k && c == #[trigger] l[j] && l[j] is Occupied
}

proof fn lemma_occupied_seq_props(l: Seq<Cell>, k: int)
    requires
        0 <= k <= l.len(),
    ensures
        occupied_seq(l, k).len() == occ_in_prefix(l, k),
        forall|t: int|
            0 <= t < occupied_seq(l, k).len() ==> #[trigger] from_line(l, k, occupied_seq(l, k)[t]),
    decreases k,
{
    if k > 0 {
        lemma_occupied_seq_props(l, k - 1);
        assert forall|t: int| 0 <= t < occupied_seq(l, k).len() implies #[trigger] from_line(
            l,
            k,
            occupied_seq(l, k)[t],
        ) by {
            if l[k - 1] is Occupied && t == occupied_seq(l, k - 1).len() {
                assert(occupied_seq(l, k)[t] == l[k - 1]);
                assert(0 <= k - 1 < k && occupied_seq(l, k)[t] == l[k - 1] && l[k - 1] is Occupied);
            } else {
                assert(occupied_seq(l, k)[t] == occupied_seq(l, k - 1)[t]);
                assert(from_line(l, k - 1, occupied_seq(l, k - 1)[t]));
                let j = choose|j: int|
                    0 <= j < k - 1 && occupied_seq(l, k - 1)[t] == #[trigger] l[j]
                        && l[j] is Occupied;
                assert(0 <= j < k && occupied_seq(l, k)[t] == l[j] && l[j] is Occupied);
            }
        }
    }
}

/// No two occupied cells of the line hold the same value.
pub open spec fn distinct_values(l: Seq<Cell>) -> bool {
    forall|i: int, j: int|
        0 <= i < j < l.len() && (#[trigger] l[i]) is Occupied && (#[trigger] l[j]) is Occupied
            ==> l[i] != l[j]
}

/// With pairwise-distinct tile values, settling merely compacts: the
/// occupied cells keep their values and their order and pack against the
/// edge of motion.  In particular a tile sliding through empty cells
/// never merges and never changes its value.
proof fn lemma_distinct_compact_prefix(l: Seq<Cell>, k: int)
    requires
        l.len() == 4,
        0 <= k <= 4,
        distinct_values(l),
    ensures
        ({
            let c = occ_in_prefix(l, k);
            let s = settle_prefix(l, k);
            &&& 0 <= c <= k
            &&& forall|t: int| 0 <= t < c ==> #[trigger] s[t] == occupied_seq(l, k)[t]
            &&& forall|t: int| c <= t < k ==> (#[trigger] s[t]) is Empty
            &&& forall|t: int| k <= t < 4 ==> #[trigger] s[t] == l[t]
        }),
    decreases k,
{
    crate::model::lemma_counts(l, k);
    if k > 0 {
        crate::model::lemma_counts(l, k - 1);
        lemma_distinct_compact_prefix(l, k - 1);
        lemma_occupied_seq_props(l, k - 1);
        lemma_occupied_seq_props(l, k);
        let cp = occ_in_prefix(l, k - 1);
        let sp = settle_prefix(l, k - 1);
        lemma_settle_len(l, k - 1);
        crate::moves::lemma_settle_suffix(l, k - 1, k - 1);
        assert(sp[k - 1] == l[k - 1]);
        lemma_blocker_props(sp, k - 1);
        match l[k - 1] {
            Cell::Empty => {
                assert(settle_prefix(l, k) == sp);
            }
            Cell::Occupied(n) => {
                let b = blocker(sp, k - 1);
                // the blocker is the last packed tile: everything between
                // `cp` and `k - 1` is empty, everything below `cp` occupied
                if cp > 0 {
                    assert(b == cp - 1) by {
                        assert(sp[cp - 1] == occupied_seq(l, k - 1)[cp - 1]);
                        assert(from_line(l, k - 1, occupied_seq(l, k - 1)[cp - 1]));
                        let jo = choose|j: int|
                            0 <= j < k - 1 && occupied_seq(l, k - 1)[cp - 1] == #[trigger] l[j]
                                && l[j] is Occupied;
                        assert(sp[cp - 1] is Occupied);
                        if b > cp - 1 {
                            assert(sp[b] is Empty);
                        }
                        if b < cp - 1 {
                            assert(sp[cp - 1] is Empty);
                        }
                    }
                    // distinct values: the blocker cannot match the tile
                    assert(sp[b] != Cell::Occupied(n)) by {
                        assert(from_line(l, k - 1, occupied_seq(l, k - 1)[b]));
                        let jj = choose|j: int|
                            0 <= j < k - 1 && occupied_seq(l, k - 1)[b] == #[trigger] l[j]
                                && l[j] is Occupied;
                        assert(l[jj] != l[k - 1]);
                    }
                } else {
                    assert(b == -1) by {
                        if b >= 0 {
                            assert(sp[b] is Empty);
                        }
                    }
                }
                match decision(sp, k - 1, n) {
                    Option::None => {
                        assert(settle_prefix(l, k) == sp);
                        assert(cp == k - 1 || k - 1 == 0);
                        assert forall|t: int| 0 <= t < occ_in_prefix(l, k) implies #[trigger]
                            settle_prefix(l, k)[t] == occupied_seq(l, k)[t] by {
                            if t < cp {
                                assert(occupied_seq(l, k)[t] == occupied_seq(l, k - 1)[t]);
                            } else {
                                assert(t == cp && cp == k - 1);
                                assert(occupied_seq(l, k)[t] == l[k - 1]);
                            }
                        }
                    }
                    Option::Some((c, t)) => {
                        assert(t == cp && c == Cell::Occupied(n));
                        let s = sp.update(cp, c).update(k - 1, Cell::Empty);
                        assert(settle_prefix(l, k) == s);
                        assert forall|u: int| 0 <= u < occ_in_prefix(l, k) implies #[trigger] s[u]
                            == occupied_seq(l, k)[u] by {
                            if u < cp {
                                assert(s[u] == sp[u]);
                                assert(occupied_seq(l, k)[u] == occupied_seq(l, k - 1)[u]);
                            } else {
                                assert(u == cp);
                                assert(occupied_seq(l, k)[u] == l[k - 1]);
                            }
                        }
                    }
                }
            }
        }
    }
}

/// A line whose occupied cells hold pairwise-distinct values only
/// compacts under a move: values and order are kept, no merge happens.
/// An empty cell ahead of a tile therefore never causes a value change.
pub proof fn lemma_distinct_values_compact(l: Seq<Cell>)
    requires
        l.len() == 4,
        distinct_values(l),
    ensures
        0 <= occ_in_prefix(l, 4) <= 4,
        occupied_seq(l, 4).len() == occ_in_prefix(l, 4),
        forall|t: int|
            0 <= t < occ_in_prefix(l, 4) ==> #[trigger] slide_line(l)[t] == occupied_seq(l, 4)[t],
        forall|t: int| occ_in_prefix(l, 4) <= t < 4 ==> (#[trigger] slide_line(l)[t]) is Empty,
{
    lemma_distinct_compact_prefix(l, 4);
    lemma_occupied_seq_props(l, 4);
}

proof fn lemma_occ_zero(l: Seq<Cell>, k: int)
    requires
        0 <= k <= l.len(),
        forall|t: int| 0 <= t < l.len() ==> (#[trigger] l[t]) is Empty,
    ensures
        occ_in_prefix(l, k) == 0,
    decreases k,
{
    if k > 0 {
        lemma_occ_zero(l, k - 1);
    }
}

proof fn lemma_occ_single(l: Seq<Cell>, k: int, p: int)
    requires
        l.len() == 4,
        0 <= k <= 4,
        0 <= p < 4,
        l[p] is Occupied,
        forall|t: int| 0 <= t < 4 && t != p ==> (#[trigger] l[t]) is Empty,
    ensures
        occ_in_prefix(l, k) == if p < k {
            1int
        } else {
            0int
        },
    decreases k,
{
    if k > 0 {
        lemma_occ_single(l, k - 1, p);
    }
}

/// A single occupied tile on an otherwise empty board slides to the
/// boundary cell of its line in the direction of motion; no merge occurs
/// and its value is unchanged.  The move reports a change exactly when
/// the tile did not already sit on that boundary.
pub proof fn lemma_single_tile_slides(d: MoveDirection, g: Seq<Cell>, p: int)
    requires
        g.len() == 16,
        0 <= p < 16,
        g[p] is Occupied,
        forall|t: int| 0 <= t < 16 && t != p ==> (#[trigger] g[t]) is Empty,
    ensures
        move_spec(d, g)[line_slot(d, line_no(d, p), 0)] == g[p],
        forall|t: int|
            0 <= t < 16 && t != line_slot(d, line_no(d, p), 0)
                ==> (#[trigger] move_spec(d, g)[t]) is Empty,
        move_moves(d, g) <==> slot_no(d, p) != 0,
{
    lemma_slot_of_index(d, p);
    let kp = line_no(d, p);
    let ip = slot_no(d, p);
    let lk = line_of(d, g, kp);
    lemma_line_geometry(d, kp, ip);
    assert(lk[ip] == g[p]);
    assert forall|t: int| 0 <= t < 4 && t != ip implies (#[trigger] lk[t]) is Empty by {
        lemma_line_geometry(d, kp, t);
    }
    assert(distinct_values(lk));
    lemma_occ_single(lk, 4, ip);
    lemma_distinct_values_compact(lk);
    lemma_occupied_seq_props(lk, 4);
    assert(slide_line(lk)[0] == lk[ip]) by {
        assert(from_line(lk, 4, occupied_seq(lk, 4)[0]));
        let j = choose|j: int|
            0 <= j < 4 && occupied_seq(lk, 4)[0] == #[trigger] lk[j] && lk[j] is Occupied;
        assert(j == ip);
    }
    lemma_line_geometry(d, kp, 0);
    assert(move_spec(d, g)[line_slot(d, kp, 0)] == slide_line(lk)[0]);
    assert forall|t: int| 0 <= t < 16 && t != line_slot(d, kp, 0) implies (#[trigger] move_spec(
        d,
        g,
    )[t]) is Empty by {
        lemma_slot_of_index(d, t);
        let k = line_no(d, t);
        let i = slot_no(d, t);
        let lt = line_of(d, g, k);
        if k == kp {
            assert(i != 0);
            assert((slide_line(lk)[i]) is Empty);
        } else {
            assert forall|u: int| 0 <= u < 4 implies (#[trigger] lt[u]) is Empty by {
                lemma_line_geometry(d, k, u);
            }
            assert(distinct_values(lt));
            lemma_occ_zero(lt, 4);
            lemma_distinct_values_compact(lt);
        }
    }
    if ip != 0 {
        assert(slide_line(lk)[ip] is Empty);
        assert(slide_line(lk) != lk);
        lemma_line_moves_iff_changed(lk);
        assert(move_moves(d, g));
    } else {
        assert forall|k: int| 0 <= k < 4 implies !line_moves(#[trigger] line_of(d, g, k)) by {
            let lt = line_of(d, g, k);
            lemma_line_moves_iff_changed(lt);
            if k == kp {
                lemma_settle_len(lk, 4);
                assert forall|u: int| 0 <= u < 4 implies #[trigger] slide_line(lk)[u] == lk[u] by {}
                assert(slide_line(lk) =~= lk);
            } else {
                assert forall|u: int| 0 <= u < 4 implies (#[trigger] lt[u]) is Empty by {
                    lemma_line_geometry(d, k, u);
                }
                assert(distinct_values(lt));
                lemma_occ_zero(lt, 4);
                lemma_distinct_values_compact(lt);
                lemma_settle_len(lt, 4);
                assert forall|u: int| 0 <= u < 4 implies #[trigger] slide_line(lt)[u] == lt[u] by {}
                assert(slide_line(lt) =~= lt);
            }
        }
        assert(!move_moves(d, g));
    }
}

/// Two equal tiles in one line with nothing else on it merge into a
/// single tile of double the value at the edge the motion points to; the
/// trailing cell and every other cell end up empty.
pub proof fn lemma_equal_pair_merges(l: Seq<Cell>, i: int, j: int, n: usize)
    requires
        l.len() == 4,
        0 <= i < j < 4,
        l[i] == Cell::Occupied(n),
        l[j] == Cell::Occupied(n),
        n + n <= usize::MAX,
        forall|t: int| 0 <= t < 4 && t != i && t != j ==> (#[trigger] l[t]) is Empty,
    ensures
        slide_line(l)[0] == Cell::Occupied((n + n) as usize),
        forall|t: int| 1 <= t < 4 ==> (#[trigger] slide_line(l)[t]) is Empty,
        line_moves(l),
{
    lemma_settle_extend_empty(l, 0, i);
    lemma_blocker_props(l, i);
    let s1 = settle_prefix(l, i + 1);
    assert(s1[0] == Cell::Occupied(n) && s1[j] == Cell::Occupied(n) && forall|t: int|
        0 < t < 4 && t != j ==> (#[trigger] s1[t]) is Empty) by {
        if i == 0 {
            assert(s1 == l);
        } else {
            assert(blocker(l, i) == -1) by {
                if blocker(l, i) >= 0 {
                    assert(l[blocker(l, i)] is Empty);
                }
            }
            assert(s1 == l.update(0, Cell::Occupied(n)).update(i, Cell::Empty));
        }
    }
    lemma_settle_extend_empty(l, i + 1, j);
    assert(settle_prefix(l, j) == s1);
    lemma_settle_suffix(l, j, j);
    assert(s1[j] == l[j]);
    lemma_blocker_props(s1, j);
    assert(blocker(s1, j) == 0) by {
        let b = blocker(s1, j);
        if b < 0 {
            assert(s1[0] is Empty);
        }
        if b > 0 {
            assert(s1[b] is Empty);
        }
    }
    let s2 = s1.update(0, Cell::Occupied((n + n) as usize)).update(j, Cell::Empty);
    assert(settle_prefix(l, j + 1) == s2);
    lemma_settle_extend_empty(l, j + 1, 4);
    assert(slide_line(l) == s2);
    assert(slide_line(l)[j] is Empty && l[j] is Occupied);
    lemma_line_moves_iff_changed(l);
    assert(slide_line(l) != l);
}

proof fn lemma_packed_prefix(l: Seq<Cell>, c: int, m: int)
    requires
        l.len() == 4,
        0 <= c <= 4,
        0 <= m <= 4,
        forall|t: int| 0 <= t < c ==> (#[trigger] l[t]) is Occupied,
        forall|t: int| c <= t < 4 ==> (#[trigger] l[t]) is Empty,
        forall|t: int| 0 <= t < c - 1 ==> #[trigger] l[t] != l[t + 1],
    ensures
        settle_prefix(l, m) == l,
        !moved_prefix(l, m),
    decreases m,
{
    if m > 0 {
        lemma_packed_prefix(l, c, m - 1);
        lemma_blocker_props(l, m - 1);
        if 0 < m - 1 < c {
            assert(blocker(l, m - 1) == m - 2);
        }
    }
}

/// A fully packed line with no equal neighbouring tiles does not move:
/// once the pairs of a move have merged, a second move with no
/// intervening change and no gaps re-merges nothing.
pub proof fn lemma_packed_line_stays(l: Seq<Cell>, c: int)
    requires
        l.len() == 4,
        0 <= c <= 4,
        forall|t: int| 0 <= t < c ==> (#[trigger] l[t]) is Occupied,
        forall|t: int| c <= t < 4 ==> (#[trigger] l[t]) is Empty,
        forall|t: int| 0 <= t < c - 1 ==> #[trigger] l[t] != l[t + 1],
    ensures
        slide_line(l) == l,
        !line_moves(l),
{
    lemma_packed_prefix(l, c, 4);
}

proof fn lemma_occ_seq_pair(l: Seq<Cell>, k: int, i: int, j: int)
    requires
        l.len() == 4,
        0 <= k <= 4,
        0 <= i < j < 4,
        l[i] is Occupied,
        l[j] is Occupied,
        forall|t: int| 0 <= t < 4 && t != i && t != j ==> (#[trigger] l[t]) is Empty,
    ensures
        occupied_seq(l, k) == if j < k {
            seq![l[i], l[j]]
        } else if i < k {
            seq![l[i]]
        } else {
            Seq::<Cell>::empty()
        },
    decreases k,
{
    if k > 0 {
        lemma_occ_seq_pair(l, k - 1, i, j);
        if k - 1 == j {
            assert(occupied_seq(l, k) =~= seq![l[i], l[j]]);
        } else if k - 1 == i {
            assert(occupied_seq(l, k) =~= seq![l[i]]);
        }
    } else {
        assert(occupied_seq(l, k) =~= Seq::<Cell>::empty());
    }
}

/// Two tiles of different values in one line never merge: the tiles pack
/// against the edge in their order, the leading one stopping adjacent to
/// (never on top of) the other, and both keep their values.
pub proof fn lemma_unequal_pair_stops(l: Seq<Cell>, i: int, j: int)
    requires
        l.len() == 4,
        0 <= i < j < 4,
        l[i] is Occupied,
        l[j] is Occupied,
        l[i] != l[j],
        forall|t: int| 0 <= t < 4 && t != i && t != j ==> (#[trigger] l[t]) is Empty,
    ensures
        slide_line(l)[0] == l[i],
        slide_line(l)[1] == l[j],
        forall|t: int| 2 <= t < 4 ==> (#[trigger] slide_line(l)[t]) is Empty,
{
    assert(distinct_values(l));
    lemma_occ_seq_pair(l, 4, i, j);
    lemma_occupied_seq_props(l, 4);
    lemma_distinct_values_compact(l);
    assert(occ_in_prefix(l, 4) == 2);
    assert(slide_line(l)[0] == occupied_seq(l, 4)[0]);
    assert(slide_line(l)[1] == occupied_seq(l, 4)[1]);
}

/// Whether settling slot `i` merges its tile into an equal neighbour.
pub open spec fn step_merges(l: Seq<Cell>, i: int) -> bool {
    l[i] matches Cell::Occupied(n) && i > 0 && blocker(l, i) >= 0 && l[blocker(l, i)]
        == Cell::Occupied(n)
}

/// Number of merges among the first `k` settling steps of the line.
pub open spec fn merges_in_prefix(l: Seq<Cell>, k: int) -> int
    decreases k,
{
    if k <= 0 {
        0
    } else {
        merges_in_prefix(l, k - 1) + (if step_merges(settle_prefix(l, k - 1), k - 1) {
            1int
        } else {
            0int
        })
    }
}

/// Number of merges a move in direction `d` performs on the grid.
pub open spec fn merge_count(d: MoveDirection, g: Seq<Cell>) -> int {
    merges_in_prefix(line_of(d, g, 0), 4) + merges_in_prefix(line_of(d, g, 1), 4)
        + merges_in_prefix(line_of(d, g, 2), 4) + merges_in_prefix(line_of(d, g, 3), 4)
}

proof fn lemma_value_update(l: Seq<Cell>, k: int, t: int, c: Cell)
    requires
        0 <= t < l.len(),
        0 <= k <= l.len(),
    ensures
        value_in_prefix(l.update(t, c), k) == value_in_prefix(l, k) + (if t < k {
            cell_value(c) - cell_value(l[t])
        } else {
            0int
        }),
    decreases k,
{
    if k > 0 {
        lemma_value_update(l, k - 1, t, c);
    }
}

proof fn lemma_step_conserves(l: Seq<Cell>, i: int)
    requires
        l.len() == 4,
        0 <= i < 4,
        cell_le(l[i], usize::MAX as int / 2),
    ensures
        value_in_prefix(step(l, i), 4) == value_in_prefix(l, 4),
        occ_in_prefix(step(l, i), 4) == occ_in_prefix(l, 4) - (if step_merges(l, i) {
            1int
        } else {
            0int
        }),
{
    lemma_blocker_props(l, i);
    match l[i] {
        Cell::Empty => {}
        Cell::Occupied(n) => {
            match decision(l, i, n) {
                Option::None => {}
                Option::Some((c, t)) => {
                    let l1 = l.update(t, c);
                    lemma_value_update(l, 4, t, c);
                    lemma_value_update(l1, 4, i, Cell::Empty);
                    lemma_measure_update(l, 4, t, c);
                    lemma_measure_update(l1, 4, i, Cell::Empty);
                    assert(l1[i] == l[i]);
                }
            }
        }
    }
}

proof fn lemma_settle_conserves(l: Seq<Cell>, k: int)
    requires
        l.len() == 4,
        0 <= k <= 4,
        values_le(l, usize::MAX as int / 2),
    ensures
        value_in_prefix(settle_prefix(l, k), 4) == value_in_prefix(l, 4),
        occ_in_prefix(settle_prefix(l, k), 4) == occ_in_prefix(l, 4) - merges_in_prefix(l, k),
        0 <= merges_in_prefix(l, k),
    decreases k,
{
    if k > 0 {
        lemma_settle_conserves(l, k - 1);
        let lp = settle_prefix(l, k - 1);
        lemma_settle_len(l, k - 1);
        lemma_settle_suffix(l, k - 1, k - 1);
        assert(lp[k - 1] == l[k - 1]);
        assert(cell_le(l[k - 1], usize::MAX as int / 2));
        lemma_step_conserves(lp, k - 1);
    }
}

spec fn lines_value(d: MoveDirection, g: Seq<Cell>, k: int) -> int
    decreases k,
{
    if k <= 0 {
        0
    } else {
        lines_value(d, g, k - 1) + value_in_prefix(line_of(d, g, k - 1), 4)
    }
}

spec fn lines_occ(d: MoveDirection, g: Seq<Cell>, k: int) -> int
    decreases k,
{
    if k <= 0 {
        0
    } else {
        lines_occ(d, g, k - 1) + occ_in_prefix(line_of(d, g, k - 1), 4)
    }
}

proof fn lemma_vertical_decompose(d: MoveDirection, g: Seq<Cell>, k: int)
    requires
        g.len() == 16,
        0 <= k <= 4,
        d is Up || d is Down,
    ensures
        value_in_prefix(g, 4 * k) == lines_value(d, g, k),
        occ_in_prefix(g, 4 * k) == lines_occ(d, g, k),
    decreases k,
{
    if k > 0 {
        lemma_vertical_decompose(d, g, k - 1);
        reveal_with_fuel(value_in_prefix, 5);
        reveal_with_fuel(occ_in_prefix, 5);
        let l = line_of(d, g, k - 1);
        if d is Up {
            assert(l[0] == g[4 * (k - 1)] && l[1] == g[4 * (k - 1) + 1] && l[2] == g[4 * (k - 1)
                + 2] && l[3] == g[4 * (k - 1) + 3]);
        } else {
            assert(l[3] == g[4 * (k - 1)] && l[2] == g[4 * (k - 1) + 1] && l[1] == g[4 * (k - 1)
                + 2] && l[0] == g[4 * (k - 1) + 3]);
        }
    }
}

proof fn lemma_left_decompose(g: Seq<Cell>, r: int)
    requires
        g.len() == 16,
        0 <= r <= 4,
    ensures
        value_in_prefix(g, 4 * r) == value_in_prefix(line_of(MoveDirection::Left, g, 0), r)
            + value_in_prefix(line_of(MoveDirection::Left, g, 1), r) + value_in_prefix(
            line_of(MoveDirection::Left, g, 2),
            r,
        ) + value_in_prefix(line_of(MoveDirection::Left, g, 3), r),
        occ_in_prefix(g, 4 * r) == occ_in_prefix(line_of(MoveDirection::Left, g, 0), r)
            + occ_in_prefix(line_of(MoveDirection::Left, g, 1), r) + occ_in_prefix(
            line_of(MoveDirection::Left, g, 2),
            r,
        ) + occ_in_prefix(line_of(MoveDirection::Left, g, 3), r),
    decreases r,
{
    if r > 0 {
        lemma_left_decompose(g, r - 1);
        reveal_with_fuel(value_in_prefix, 5);
        reveal_with_fuel(occ_in_prefix, 5);
        assert(line_of(MoveDirection::Left, g, 0)[r - 1] == g[(r - 1) * 4]);
        assert(line_of(MoveDirection::Left, g, 1)[r - 1] == g[(r - 1) * 4 + 1]);
        assert(line_of(MoveDirection::Left, g, 2)[r - 1] == g[(r - 1) * 4 + 2]);
        assert(line_of(MoveDirection::Left, g, 3)[r - 1] == g[(r - 1) * 4 + 3]);
    }
}

#[verifier::rlimit(80)]
proof fn lemma_grid_by_lines(d: MoveDirection, g: Seq<Cell>)
    requires
        g.len() == 16,
    ensures
        value_in_prefix(g, 16) == value_in_prefix(line_of(d, g, 0), 4) + value_in_prefix(
            line_of(d, g, 1),
            4,
        ) + value_in_prefix(line_of(d, g, 2), 4) + value_in_prefix(line_of(d, g, 3), 4),
        occ_in_prefix(g, 16) == occ_in_prefix(line_of(d, g, 0), 4) + occ_in_prefix(
            line_of(d, g, 1),
            4,
        ) + occ_in_prefix(line_of(d, g, 2), 4) + occ_in_prefix(line_of(d, g, 3), 4),
{
    if d is Up || d is Down {
        lemma_vertical_decompose(d, g, 4);
        reveal_with_fuel(lines_value, 5);
        reveal_with_fuel(lines_occ, 5);
    } else if d is Left {
        lemma_left_decompose(g, 4);
    } else {
        lemma_left_decompose(g, 4);
        assert forall|k: int| 0 <= k < 4 implies value_in_prefix(#[trigger] line_of(d, g, k), 4)
            == value_in_prefix(line_of(MoveDirection::Left, g, k), 4) && occ_in_prefix(
            line_of(d, g, k),
            4,
        ) == occ_in_prefix(line_of(MoveDirection::Left, g, k), 4) by {
            reveal_with_fuel(value_in_prefix, 5);
            reveal_with_fuel(occ_in_prefix, 5);
            let lr = line_of(d, g, k);
            let ll = line_of(MoveDirection::Left, g, k);
            assert(lr[0] == ll[3] && lr[1] == ll[2] && lr[2] == ll[1] && lr[3] == ll[0]);
        }
    }
}

/// A move never invents or destroys value: a tile changes only by two
/// equal tiles merging into their sum, so the total of the tile values
/// is conserved, and the number of occupied cells drops by exactly the
/// number of merges performed.  In particular a tile that only slides
/// through empty cells keeps its value.
pub proof fn lemma_move_conservation(d: MoveDirection, g: Seq<Cell>)
    requires
        g.len() == 16,
        values_le(g, usize::MAX as int / 2),
    ensures
        total_value(move_spec(d, g)) == total_value(g),
        occupied_count(move_spec(d, g)) == occupied_count(g) - merge_count(d, g),
        0 <= merge_count(d, g),
{
    lemma_grid_by_lines(d, g);
    lemma_grid_by_lines(d, move_spec(d, g));
    assert forall|k: int| 0 <= k < 4 implies #[trigger] line_of(d, move_spec(d, g), k)
        == slide_line(line_of(d, g, k)) by {
        let l0 = line_of(d, g, k);
        lemma_settle_len(l0, 4);
        assert forall|i: int| 0 <= i < 4 implies line_of(d, move_spec(d, g), k)[i] == slide_line(
            l0,
        )[i] by {
            lemma_line_geometry(d, k, i);
        }
        assert(line_of(d, move_spec(d, g), k) =~= slide_line(l0));
    }
    assert forall|k: int| 0 <= k < 4 implies value_in_prefix(#[trigger] line_of(d, g, k), 4)
        == value_in_prefix(slide_line(line_of(d, g, k)), 4) && occ_in_prefix(
        slide_line(line_of(d, g, k)),
        4,
    ) == occ_in_prefix(line_of(d, g, k), 4) - merges_in_prefix(line_of(d, g, k), 4) && 0
        <= merges_in_prefix(line_of(d, g, k), 4) by {
        let l0 = line_of(d, g, k);
        assert forall|i: int| 0 <= i < 4 implies cell_le(#[trigger] l0[i], usize::MAX as int / 2) by {
            lemma_line_geometry(d, k, i);
        }
        lemma_settle_conserves(l0, 4);
    }
}

/// The win signal fires at most once per session: once the flag is set, no
/// later committed move reports `Won`, even if a 2048 tile persists.
pub proof fn lemma_won_at_most_once(b0: Gameboard, d: MoveDirection, b1: Gameboard, s: GameState)
    requires
        move_outcome(b0, d, b1, s),
        b0.won_flag(),
    ensures
        s != GameState::Won,
        b1.won_flag(),
{
}

} // verus!
