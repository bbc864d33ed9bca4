//! Properties of the board that span several operations.
use vstd::prelude::*;
use crate::bits::{has_bit, lemma_clear_then_set, lemma_clear_bit, lemma_set_bit};
use crate::playfield::{PlayfieldView, after_set};
use crate::rules::{
    Masks, same_unit, row_of, col_of, quad_of, cells_in_range, consistent, conflict_free, can_hold,
    is_solution, thinned, lemma_remove_keeps_consistency, lemma_place_keeps_consistency, is_fill,
    has_fill, has_two_fills, fill_count_capped, law_fill_is_solution, accepted_leaf, thinned_masks,
    removal_leaf,
};

verus! {

/// On a consistent, conflict-free board, emptying a cell, writing into an
/// empty cell a digit that its row, column and box do not hold yet, or
/// writing the value a cell already holds keeps the board consistent and
/// conflict-free.
pub proof fn law_set_value_keeps_consistency(b: PlayfieldView, k: int, val: u8)
    requires
        b.masks.wf(),
        cells_in_range(b.cells),
        consistent(b.masks, b.cells),
        conflict_free(b.cells),
        0 <= k < 81,
        val <= 9,
        val == 0 || val == b.cells[k] || (b.cells[k] == 0 && can_hold(b.cells, k, val as int)),
    ensures
        consistent(after_set(b, k, val).masks, after_set(b, k, val).cells),
        conflict_free(after_set(b, k, val).cells),
        cells_in_range(after_set(b, k, val).cells),
{
    if val == b.cells[k] {
    } else if val == 0 {
        lemma_remove_keeps_consistency(b.masks, b.cells, k);
    } else {
        lemma_place_keeps_consistency(b.masks, b.cells, k, val as int);
    }
}

/// Writing into an empty cell a digit its units allow, then emptying the
/// cell again, gives the board back.
pub proof fn law_set_then_clear(b: PlayfieldView, k: int, val: u8)
    requires
        b.masks.wf(),
        b.cells.len() == 81,
        0 <= k < 81,
        b.cells[k] == 0,
        1 <= val <= 9,
        b.masks.allows(k, val as int),
    ensures
        after_set(after_set(b, k, val), k, 0) == b,
{
    let b1 = after_set(b, k, val);
    let m = b.masks;
    lemma_clear_then_set(m.rows[row_of(k)], val - 1);
    lemma_clear_then_set(m.cols[col_of(k)], val - 1);
    lemma_clear_then_set(m.quads[quad_of(k)], val - 1);
    assert(b1.masks.unplace(k, val as int).rows =~= m.rows);
    assert(b1.masks.unplace(k, val as int).cols =~= m.cols);
    assert(b1.masks.unplace(k, val as int).quads =~= m.quads);
    assert(b1.cells.update(k, 0) =~= b.cells);
}

/// A puzzle thinned out of a solved grid has that grid as a solution.
pub proof fn law_puzzle_has_solution(sol: Seq<u8>, g: Seq<u8>, q: Seq<usize>, lo: int, hi: int)
    requires
        sol.len() == 81,
        forall|k: int| 0 <= k < 81 ==> 1 <= #[trigger] sol[k] <= 9,
        conflict_free(sol),
        thinned(sol, g, q, lo, hi),
    ensures
        is_solution(g, sol),
{
    assert forall|k: int| 0 <= k < 81 && g[k] != 0 implies #[trigger] sol[k] == g[k] by {
        if g[k] != sol[k] {
            assert(g[k] == 0);
        }
    }
}

/// The solution count is 0 exactly when the board has no completion, that is
/// when solving it is not possible.
pub proof fn law_count_zero_iff_no_completion(m: Masks, g0: Seq<u8>)
    ensures
        (fill_count_capped(m, g0, 0) == 0) == !has_fill(m, g0, 0),
{
}

/// A board without empty cells has exactly one completion, itself: counting
/// the solutions of a solved board gives 1.
pub proof fn law_full_board_counts_one(m: Masks, g: Seq<u8>)
    requires
        g.len() == 81,
        forall|k: int| 0 <= k < 81 ==> #[trigger] g[k] != 0,
    ensures
        fill_count_capped(m, g, 0) == 1,
{
    assert forall|h: Seq<u8>| #[trigger] is_fill(m, g, 0, h) implies h == g by {
        assert(h =~= g);
    }
    assert(is_fill(m, g, 0, g));
    assert(!has_two_fills(m, g, 0));
}

/// On a consistent board whose digits all agree with a solved sudoku `sol`,
/// `sol` is a completion, so the solution count is at least 1.
pub proof fn law_solution_keeps_count(m: Masks, g: Seq<u8>, sol: Seq<u8>)
    requires
        m.wf(),
        cells_in_range(g),
        consistent(m, g),
        is_solution(g, sol),
    ensures
        is_fill(m, g, 0, sol),
        fill_count_capped(m, g, 0) >= 1,
{
    assert forall|j: int, l: int| 0 <= j < l < 81 && same_unit(j, l) && g[j] != 0 implies #[trigger] g[j]
        != #[trigger] g[l] by {
        assert(sol[j] == g[j]);
        assert(sol[j] != sol[l]);
        if g[l] != 0 {
            assert(sol[l] == g[l]);
        }
    }
    law_fill_is_solution(m, g, sol);
}

/// Emptying a cell of a consistent, conflict-free board whose digits agree
/// with a solved sudoku `sol` keeps all of that: starting from a solved board,
/// any cells may be emptied and the board keeps a completion.
pub proof fn law_clearing_keeps_completion(b: PlayfieldView, k: int, sol: Seq<u8>)
    requires
        b.masks.wf(),
        cells_in_range(b.cells),
        consistent(b.masks, b.cells),
        conflict_free(b.cells),
        is_solution(b.cells, sol),
        0 <= k < 81,
    ensures
        consistent(after_set(b, k, 0).masks, after_set(b, k, 0).cells),
        conflict_free(after_set(b, k, 0).cells),
        cells_in_range(after_set(b, k, 0).cells),
        is_solution(after_set(b, k, 0).cells, sol),
        fill_count_capped(after_set(b, k, 0).masks, after_set(b, k, 0).cells, 0) >= 1,
{
    law_set_value_keeps_consistency(b, k, 0);
    let a = after_set(b, k, 0);
    assert forall|j: int| 0 <= j < 81 && a.cells[j] != 0 implies #[trigger] sol[j] == a.cells[j] by {
        assert(a.cells[j] == b.cells[j]);
    }
    law_solution_keeps_count(a.masks, a.cells, sol);
}

/// The digit whose candidate bits a write of `val` into cell `k` changes:
/// the digit written, or, when the cell is emptied, the digit it held.
pub open spec fn digit_changed(b: PlayfieldView, k: int, val: u8) -> int {
    if val == 0 {
        b.cells[k] as int
    } else {
        val as int
    }
}

/// Writing `val` into cell `k` always stores it there, whatever the cell held
/// and whether or not the digit conflicts, and touches no other cell. A new
/// digit becomes disallowed in the row, column and box of `k`; emptying a
/// filled cell allows its old digit there again; no other candidate bit of
/// any unit changes.
pub proof fn law_set_value_stores(b: PlayfieldView, k: int, val: u8)
    requires
        b.masks.wf(),
        cells_in_range(b.cells),
        0 <= k < 81,
        val <= 9,
    ensures
        after_set(b, k, val).cells == b.cells.update(k, val),
        after_set(b, k, val).cells[k] == val,
        after_set(b, k, val).solved == b.solved,
        after_set(b, k, val).masks.wf(),
        val != 0 && val != b.cells[k] ==> forall|j: int|
            0 <= j < 81 && same_unit(j, k) ==> !#[trigger] after_set(b, k, val).masks.allows(j, val as int),
        val == 0 && b.cells[k] != 0 ==> {
            &&& has_bit(after_set(b, k, val).masks.rows[row_of(k)], b.cells[k] - 1)
            &&& has_bit(after_set(b, k, val).masks.cols[col_of(k)], b.cells[k] - 1)
            &&& has_bit(after_set(b, k, val).masks.quads[quad_of(k)], b.cells[k] - 1)
        },
        forall|u: int, i: int|
            0 <= u < 9 && 0 <= i < 16 && !(val != b.cells[k] && u == row_of(k) && i == digit_changed(b, k, val) - 1)
                ==> #[trigger] has_bit(after_set(b, k, val).masks.rows[u], i) == has_bit(b.masks.rows[u], i),
        forall|u: int, i: int|
            0 <= u < 9 && 0 <= i < 16 && !(val != b.cells[k] && u == col_of(k) && i == digit_changed(b, k, val) - 1)
                ==> #[trigger] has_bit(after_set(b, k, val).masks.cols[u], i) == has_bit(b.masks.cols[u], i),
        forall|u: int, i: int|
            0 <= u < 9 && 0 <= i < 16 && !(val != b.cells[k] && u == quad_of(k) && i == digit_changed(b, k, val) - 1)
                ==> #[trigger] has_bit(after_set(b, k, val).masks.quads[u], i) == has_bit(b.masks.quads[u], i),
{
    let a = after_set(b, k, val);
    let d = digit_changed(b, k, val);
    if val == b.cells[k] {
        assert(b.cells.update(k, val) =~= b.cells);
    } else {
        assert forall|u: int, i: int|
            0 <= u < 9 && 0 <= i < 16 && !(val != b.cells[k] && u == row_of(k) && i == d - 1)
                implies #[trigger] has_bit(a.masks.rows[u], i) == has_bit(b.masks.rows[u], i) by {
            if val != b.cells[k] && u == row_of(k) {
                lemma_clear_bit(b.masks.rows[u], d - 1, i);
                lemma_set_bit(b.masks.rows[u], d - 1, i);
            }
        }
        if val != b.cells[k] {
            lemma_clear_bit(b.masks.rows[row_of(k)], d - 1, d - 1);
            lemma_set_bit(b.masks.rows[row_of(k)], d - 1, d - 1);
        }
        assert forall|u: int, i: int|
            0 <= u < 9 && 0 <= i < 16 && !(val != b.cells[k] && u == col_of(k) && i == d - 1)
                implies #[trigger] has_bit(a.masks.cols[u], i) == has_bit(b.masks.cols[u], i) by {
            if val != b.cells[k] && u == col_of(k) {
                lemma_clear_bit(b.masks.cols[u], d - 1, i);
                lemma_set_bit(b.masks.cols[u], d - 1, i);
            }
        }
        if val != b.cells[k] {
            lemma_clear_bit(b.masks.cols[col_of(k)], d - 1, d - 1);
            lemma_set_bit(b.masks.cols[col_of(k)], d - 1, d - 1);
        }
        assert forall|u: int, i: int|
            0 <= u < 9 && 0 <= i < 16 && !(val != b.cells[k] && u == quad_of(k) && i == d - 1)
                implies #[trigger] has_bit(a.masks.quads[u], i) == has_bit(b.masks.quads[u], i) by {
            if val != b.cells[k] && u == quad_of(k) {
                lemma_clear_bit(b.masks.quads[u], d - 1, i);
                lemma_set_bit(b.masks.quads[u], d - 1, i);
            }
        }
        if val != b.cells[k] {
            lemma_clear_bit(b.masks.quads[quad_of(k)], d - 1, d - 1);
            lemma_set_bit(b.masks.quads[quad_of(k)], d - 1, d - 1);
        }
        assert forall|j: int| 0 <= j < 81 && same_unit(j, k) && val != 0 implies !#[trigger] a.masks.allows(j, val as int) by {
            if row_of(j) == row_of(k) {
                assert(!has_bit(a.masks.rows[row_of(j)], val - 1));
            } else if col_of(j) == col_of(k) {
                assert(!has_bit(a.masks.cols[col_of(j)], val - 1));
            } else {
                assert(!has_bit(a.masks.quads[quad_of(j)], val - 1));
            }
        }
    }
}

/// A puzzle the generator accepts at stop position `hi` has at most one
/// completion from cell `hi` on, counted under the masks the search reaches
/// there.
pub proof fn law_accepted_puzzle_count(m: Masks, g0: Seq<u8>, g: Seq<u8>, q: Seq<usize>, lo: int, hi: int, removed: int)
    requires
        accepted_leaf(m, g0, g, q, lo, hi, removed),
    ensures
        removal_leaf(g0, g, q, lo, hi, removed),
        fill_count_capped(thinned_masks(m, g0, g, q, lo, hi), g, hi) <= 1,
{
}

} // verus!
