//! The sudoku model: cells numbered `0..81` row by row, units (rows, columns,
//! 3x3 boxes), candidate masks, and what counts as a completion of a board.
use vstd::prelude::*;
use crate::bits::{has_bit, clear_bit, set_bit, lemma_clear_bit, lemma_set_bit, lemma_set_then_clear};

verus! {

/// How many cells the generator empties, less one.
pub const LEVEL: u8 = 50;

/// The row of cell `k`.
pub open spec fn row_of(k: int) -> int {
    k / 9
}

/// The column of cell `k`.
pub open spec fn col_of(k: int) -> int {
    k % 9
}

/// The 3x3 box of cell `k`, numbered `0..9` row by row.
pub open spec fn quad_of(k: int) -> int {
    (k / 27) * 3 + (k % 9) / 3
}

/// Cells `j` and `k` share a row, a column or a box.
pub open spec fn same_unit(j: int, k: int) -> bool {
    row_of(j) == row_of(k) || col_of(j) == col_of(k) || quad_of(j) == quad_of(k)
}

/// The candidate masks of the nine rows, columns and boxes: bit `i` of a
/// unit's mask set means digit `i + 1` may still go there.
pub struct Masks {
    pub rows: Seq<u16>,
    pub cols: Seq<u16>,
    pub quads: Seq<u16>,
}

impl Masks {
    pub open spec fn wf(self) -> bool {
        self.rows.len() == 9 && self.cols.len() == 9 && self.quads.len() == 9
    }

    /// All three units of cell `k` still allow digit `v`.
    pub open spec fn allows(self, k: int, v: int) -> bool {
        &&& has_bit(self.rows[row_of(k)], v - 1)
        &&& has_bit(self.cols[col_of(k)], v - 1)
        &&& has_bit(self.quads[quad_of(k)], v - 1)
    }

    /// The masks once digit `v` is written into cell `k`: its bit is cleared
    /// in the row, the column and the box of `k`.
    pub open spec fn place(self, k: int, v: int) -> Masks {
        Masks {
            rows: self.rows.update(row_of(k), clear_bit(self.rows[row_of(k)], v - 1)),
            cols: self.cols.update(col_of(k), clear_bit(self.cols[col_of(k)], v - 1)),
            quads: self.quads.update(quad_of(k), clear_bit(self.quads[quad_of(k)], v - 1)),
        }
    }

    /// The masks once digit `v` is taken out of cell `k`: its bit is set in
    /// the row, the column and the box of `k`.
    pub open spec fn unplace(self, k: int, v: int) -> Masks {
        Masks {
            rows: self.rows.update(row_of(k), set_bit(self.rows[row_of(k)], v - 1)),
            cols: self.cols.update(col_of(k), set_bit(self.cols[col_of(k)], v - 1)),
            quads: self.quads.update(quad_of(k), set_bit(self.quads[quad_of(k)], v - 1)),
        }
    }
}

/// `g` completes board `g0` from cell `c` on under masks `m`: cells before `c`
/// and non-empty cells keep their value; every empty cell from `c` on gets a
/// digit its units allow; and no two such cells in one unit get the same digit.
pub open spec fn is_fill(m: Masks, g0: Seq<u8>, c: int, g: Seq<u8>) -> bool {
    &&& g.len() == 81
    &&& forall|k: int| 0 <= k < 81 && (k < c || g0[k] != 0) ==> #[trigger] g[k] == g0[k]
    &&& forall|k: int|
        c <= k < 81 && g0[k] == 0 ==> 1 <= #[trigger] g[k] <= 9 && m.allows(k, g[k] as int)
    &&& forall|j: int, k: int|
        c <= j < k < 81 && g0[j] == 0 && g0[k] == 0 && same_unit(j, k) ==> #[trigger] g[j]
            != #[trigger] g[k]
}

pub open spec fn has_fill(m: Masks, g0: Seq<u8>, c: int) -> bool {
    exists|g: Seq<u8>| is_fill(m, g0, c, g)
}

pub open spec fn has_two_fills(m: Masks, g0: Seq<u8>, c: int) -> bool {
    exists|g: Seq<u8>, h: Seq<u8>| is_fill(m, g0, c, g) && is_fill(m, g0, c, h) && g != h
}

/// How many completions there are, counted up to two: 0, 1, or 2 for "more than one".
pub open spec fn fill_count_capped(m: Masks, g0: Seq<u8>, c: int) -> u8 {
    if !has_fill(m, g0, c) {
        0
    } else if has_two_fills(m, g0, c) {
        2
    } else {
        1
    }
}

/// `a` comes before `b` in lexicographic order.
pub open spec fn lex_less(a: Seq<u8>, b: Seq<u8>) -> bool {
    exists|i: int|
        0 <= i < a.len() && i < b.len() && a[i] < b[i] && forall|j: int|
            0 <= j < i ==> #[trigger] a[j] == b[j]
}

/// `g` is the lexicographically first completion.
pub open spec fn is_first_fill(m: Masks, g0: Seq<u8>, c: int, g: Seq<u8>) -> bool {
    &&& is_fill(m, g0, c, g)
    &&& forall|h: Seq<u8>| #[trigger] is_fill(m, g0, c, h) ==> !lex_less(h, g)
}

/// The masks after the digits of `g` are written, cell by cell from `c` on,
/// into the cells that are empty in `g0`.
pub open spec fn placed_from(m: Masks, g0: Seq<u8>, c: int, g: Seq<u8>) -> Masks
    decreases 81 - c,
{
    if c >= 81 || c < 0 {
        m
    } else if g0[c] != 0 {
        placed_from(m, g0, c + 1, g)
    } else {
        placed_from(m.place(c, g[c] as int), g0, c + 1, g)
    }
}

/// Digit `v` occurs in row `r` of `cells`.
pub open spec fn row_contains(cells: Seq<u8>, r: int, v: int) -> bool {
    exists|k: int| 0 <= k < 81 && row_of(k) == r && #[trigger] cells[k] == v
}

pub open spec fn col_contains(cells: Seq<u8>, c: int, v: int) -> bool {
    exists|k: int| 0 <= k < 81 && col_of(k) == c && #[trigger] cells[k] == v
}

pub open spec fn quad_contains(cells: Seq<u8>, q: int, v: int) -> bool {
    exists|k: int| 0 <= k < 81 && quad_of(k) == q && #[trigger] cells[k] == v
}

/// The masks agree with the cells: in every unit, digit `i + 1` is allowed
/// exactly when the unit does not hold it.
pub open spec fn consistent(m: Masks, cells: Seq<u8>) -> bool {
    &&& forall|u: int, i: int|
        0 <= u < 9 && 0 <= i < 9 ==> (#[trigger] has_bit(m.rows[u], i) <==> !row_contains(
            cells,
            u,
            i + 1,
        ))
    &&& forall|u: int, i: int|
        0 <= u < 9 && 0 <= i < 9 ==> (#[trigger] has_bit(m.cols[u], i) <==> !col_contains(
            cells,
            u,
            i + 1,
        ))
    &&& forall|u: int, i: int|
        0 <= u < 9 && 0 <= i < 9 ==> (#[trigger] has_bit(m.quads[u], i) <==> !quad_contains(
            cells,
            u,
            i + 1,
        ))
}

/// No digit occurs twice in a unit.
pub open spec fn conflict_free(cells: Seq<u8>) -> bool {
    forall|j: int, k: int|
        0 <= j < k < 81 && same_unit(j, k) && cells[j] != 0 ==> #[trigger] cells[j]
            != #[trigger] cells[k]
}

/// Every cell holds 0 (empty) or a digit.
pub open spec fn cells_in_range(cells: Seq<u8>) -> bool {
    cells.len() == 81 && forall|k: int| 0 <= k < 81 ==> #[trigger] cells[k] <= 9
}

/// `g` is a solved sudoku that keeps every digit of `g0`.
pub open spec fn is_solution(g0: Seq<u8>, g: Seq<u8>) -> bool {
    &&& g.len() == 81
    &&& forall|k: int| 0 <= k < 81 && g0[k] != 0 ==> #[trigger] g[k] == g0[k]
    &&& forall|k: int| 0 <= k < 81 ==> 1 <= #[trigger] g[k] <= 9
    &&& conflict_free(g)
}


/// A non-empty cell is skipped: the completions from `c` are those from `c + 1`.
pub proof fn lemma_fill_skip(m: Masks, g0: Seq<u8>, c: int, g: Seq<u8>)
    requires
        0 <= c < 81,
        g0.len() == 81,
        g0[c] != 0,
    ensures
        is_fill(m, g0, c, g) == is_fill(m, g0, c + 1, g),
{
}

/// A completion from 81 on is the board itself.
pub proof fn lemma_fill_end(m: Masks, g0: Seq<u8>, g: Seq<u8>)
    requires
        g0.len() == 81,
    ensures
        is_fill(m, g0, 81, g) == (g == g0),
{
    if is_fill(m, g0, 81, g) {
        assert(g =~= g0);
    }
}

/// Writing an allowed digit `v` into the empty cell `c` and going on from
/// `c + 1` under the updated masks gives exactly the completions from `c`
/// whose cell `c` holds `v`.
pub proof fn lemma_fill_step(m: Masks, g0: Seq<u8>, c: int, v: int, g: Seq<u8>)
    requires
        0 <= c < 81,
        g0.len() == 81,
        g0[c] == 0,
        1 <= v <= 9,
        m.wf(),
        m.allows(c, v),
    ensures
        (is_fill(m, g0, c, g) && g[c] == v) == is_fill(m.place(c, v), g0.update(c, v as u8), c + 1, g),
{
    let m2 = m.place(c, v);
    let g1 = g0.update(c, v as u8);
    if is_fill(m, g0, c, g) && g[c] == v {
        assert forall|k: int| c + 1 <= k < 81 && g1[k] == 0 implies 1 <= #[trigger] g[k] <= 9
            && m2.allows(k, g[k] as int) by {
            assert(g0[k] == 0);
            assert(1 <= g[k] <= 9 && m.allows(k, g[k] as int));
            if same_unit(c, k) {
                assert(g[c] != g[k]);
            }
            lemma_clear_bit(m.rows[row_of(c)], v - 1, g[k] - 1);
            lemma_clear_bit(m.cols[col_of(c)], v - 1, g[k] - 1);
            lemma_clear_bit(m.quads[quad_of(c)], v - 1, g[k] - 1);
        }
        assert forall|k: int| 0 <= k < 81 && (k < c + 1 || g1[k] != 0) implies #[trigger] g[k]
            == g1[k] by {
            if k != c {
                assert(g0[k] == g1[k]);
            }
        }
        assert(is_fill(m2, g1, c + 1, g));
    }
    if is_fill(m2, g1, c + 1, g) {
        assert(g[c] == g1[c]);
        assert forall|k: int| c <= k < 81 && g0[k] == 0 implies 1 <= #[trigger] g[k] <= 9
            && m.allows(k, g[k] as int) by {
            if k != c {
                assert(g1[k] == 0);
                assert(m2.allows(k, g[k] as int));
                lemma_clear_bit(m.rows[row_of(c)], v - 1, g[k] - 1);
                lemma_clear_bit(m.cols[col_of(c)], v - 1, g[k] - 1);
                lemma_clear_bit(m.quads[quad_of(c)], v - 1, g[k] - 1);
            }
        }
        assert forall|j: int, k: int|
            c <= j < k < 81 && g0[j] == 0 && g0[k] == 0 && same_unit(j, k) implies #[trigger] g[j]
            != #[trigger] g[k] by {
            if j == c {
                assert(g1[k] == 0);
                assert(m2.allows(k, g[k] as int));
                lemma_clear_bit(m.rows[row_of(c)], v - 1, g[k] - 1);
                lemma_clear_bit(m.cols[col_of(c)], v - 1, g[k] - 1);
                lemma_clear_bit(m.quads[quad_of(c)], v - 1, g[k] - 1);
            } else {
                assert(g1[j] == 0 && g1[k] == 0);
            }
        }
        assert forall|k: int| 0 <= k < 81 && (k < c || g0[k] != 0) implies #[trigger] g[k]
            == g0[k] by {
            assert(g1[k] == g0[k]);
        }
    }
}

/// The masks after the digits are written depend only on the cells from `c` on.
pub proof fn lemma_placed_from_agree(m: Masks, g0: Seq<u8>, g1: Seq<u8>, c: int, g: Seq<u8>)
    requires
        forall|k: int| c <= k < 81 ==> #[trigger] g0[k] == g1[k],
    ensures
        placed_from(m, g0, c, g) == placed_from(m, g1, c, g),
    decreases 81 - c,
{
    if c >= 81 || c < 0 {
    } else if g0[c] != 0 {
        lemma_placed_from_agree(m, g0, g1, c + 1, g);
    } else {
        lemma_placed_from_agree(m.place(c, g[c] as int), g0, g1, c + 1, g);
    }
}


/// Emptying a cell of a consistent, conflict-free board and allowing its digit
/// again in its units keeps the board consistent and conflict-free.
pub proof fn lemma_remove_keeps_consistency(m: Masks, g0: Seq<u8>, k: int)
    requires
        m.wf(),
        cells_in_range(g0),
        0 <= k < 81,
        g0[k] != 0,
        consistent(m, g0),
        conflict_free(g0),
    ensures
        consistent(m.unplace(k, g0[k] as int), g0.update(k, 0)),
        conflict_free(g0.update(k, 0)),
{
    let v = g0[k] as int;
    let m2 = m.unplace(k, v);
    let g1 = g0.update(k, 0);
    assert forall|u: int, i: int| 0 <= u < 9 && 0 <= i < 9 implies (#[trigger] has_bit(m2.rows[u], i)
        <==> !row_contains(g1, u, i + 1)) by {
        lemma_set_bit(m.rows[u], v - 1, i);
        if u == row_of(k) && i == v - 1 {
            if row_contains(g1, u, v) {
                let j = choose|j: int| 0 <= j < 81 && row_of(j) == u && #[trigger] g1[j] == v;
                assert(j != k && g0[j] == v && same_unit(j, k));
                if j < k {
                    assert(g0[j] != g0[k]);
                } else {
                    assert(g0[k] != g0[j]);
                }
            }
        } else {
            if row_contains(g0, u, i + 1) {
                let j = choose|j: int| 0 <= j < 81 && row_of(j) == u && #[trigger] g0[j] == i + 1;
                assert(j != k);
                assert(g1[j] == i + 1);
            }
            if row_contains(g1, u, i + 1) {
                let j = choose|j: int| 0 <= j < 81 && row_of(j) == u && #[trigger] g1[j] == i + 1;
                assert(j != k);
                assert(g0[j] == i + 1);
            }
        }
    }
    assert forall|u: int, i: int| 0 <= u < 9 && 0 <= i < 9 implies (#[trigger] has_bit(m2.cols[u], i)
        <==> !col_contains(g1, u, i + 1)) by {
        lemma_set_bit(m.cols[u], v - 1, i);
        if u == col_of(k) && i == v - 1 {
            if col_contains(g1, u, v) {
                let j = choose|j: int| 0 <= j < 81 && col_of(j) == u && #[trigger] g1[j] == v;
                assert(j != k && g0[j] == v && same_unit(j, k));
                if j < k {
                    assert(g0[j] != g0[k]);
                } else {
                    assert(g0[k] != g0[j]);
                }
            }
        } else {
            if col_contains(g0, u, i + 1) {
                let j = choose|j: int| 0 <= j < 81 && col_of(j) == u && #[trigger] g0[j] == i + 1;
                assert(j != k);
                assert(g1[j] == i + 1);
            }
            if col_contains(g1, u, i + 1) {
                let j = choose|j: int| 0 <= j < 81 && col_of(j) == u && #[trigger] g1[j] == i + 1;
                assert(j != k);
                assert(g0[j] == i + 1);
            }
        }
    }
    assert forall|u: int, i: int| 0 <= u < 9 && 0 <= i < 9 implies (#[trigger] has_bit(m2.quads[u], i)
        <==> !quad_contains(g1, u, i + 1)) by {
        lemma_set_bit(m.quads[u], v - 1, i);
        if u == quad_of(k) && i == v - 1 {
            if quad_contains(g1, u, v) {
                let j = choose|j: int| 0 <= j < 81 && quad_of(j) == u && #[trigger] g1[j] == v;
                assert(j != k && g0[j] == v && same_unit(j, k));
                if j < k {
                    assert(g0[j] != g0[k]);
                } else {
                    assert(g0[k] != g0[j]);
                }
            }
        } else {
            if quad_contains(g0, u, i + 1) {
                let j = choose|j: int| 0 <= j < 81 && quad_of(j) == u && #[trigger] g0[j] == i + 1;
                assert(j != k);
                assert(g1[j] == i + 1);
            }
            if quad_contains(g1, u, i + 1) {
                let j = choose|j: int| 0 <= j < 81 && quad_of(j) == u && #[trigger] g1[j] == i + 1;
                assert(j != k);
                assert(g0[j] == i + 1);
            }
        }
    }
    assert forall|j: int, l: int|
        0 <= j < l < 81 && same_unit(j, l) && g1[j] != 0 implies #[trigger] g1[j]
            != #[trigger] g1[l] by {
        assert(g0[j] != g0[l]);
    }
}

/// On a consistent board the digit of a filled cell is not allowed in its
/// units, so allowing it and disallowing it again gives the same masks.
pub proof fn lemma_unplace_then_place(m: Masks, g0: Seq<u8>, k: int)
    requires
        m.wf(),
        cells_in_range(g0),
        0 <= k < 81,
        g0[k] != 0,
        consistent(m, g0),
    ensures
        m.unplace(k, g0[k] as int).place(k, g0[k] as int) == m,
{
    let v = g0[k] as int;
    assert(!has_bit(m.rows[row_of(k)], v - 1)) by {
        assert(g0[k] == v);
    }
    lemma_set_then_clear(m.rows[row_of(k)], v - 1);
    assert(m.unplace(k, v).place(k, v).rows =~= m.rows);
    assert(!has_bit(m.cols[col_of(k)], v - 1)) by {
        assert(g0[k] == v);
    }
    lemma_set_then_clear(m.cols[col_of(k)], v - 1);
    assert(m.unplace(k, v).place(k, v).cols =~= m.cols);
    assert(!has_bit(m.quads[quad_of(k)], v - 1)) by {
        assert(g0[k] == v);
    }
    lemma_set_then_clear(m.quads[quad_of(k)], v - 1);
    assert(m.unplace(k, v).place(k, v).quads =~= m.quads);
}

/// The queue lists 81 distinct cells.
pub open spec fn queue_ok(q: Seq<usize>) -> bool {
    &&& q.len() == 81
    &&& forall|p: int| 0 <= p < 81 ==> #[trigger] q[p] < 81
    &&& forall|p: int, r: int| 0 <= p < r < 81 ==> #[trigger] q[p] != #[trigger] q[r]
}

/// Cell `k` is listed at some position of `q` in `lo..hi`.
pub open spec fn queued(q: Seq<usize>, lo: int, hi: int, k: int) -> bool {
    exists|p: int| lo <= p < hi && #[trigger] q[p] == k
}

/// `g` is `g0` with some of the cells listed at positions `lo..hi` of `q` emptied.
pub open spec fn thinned(g0: Seq<u8>, g: Seq<u8>, q: Seq<usize>, lo: int, hi: int) -> bool {
    &&& g.len() == 81
    &&& forall|k: int|
        0 <= k < 81 && #[trigger] g[k] != g0[k] ==> g[k] == 0 && queued(q, lo, hi, k)
}

/// How many of the cells listed at positions `lo..hi` of `q` are empty in `g`.
pub open spec fn zeroed_count(g: Seq<u8>, q: Seq<usize>, lo: int, hi: int) -> nat
    decreases hi - lo,
{
    if lo >= hi {
        0
    } else {
        (if g[q[lo] as int] == 0 {
            1nat
        } else {
            0nat
        }) + zeroed_count(g, q, lo + 1, hi)
    }
}

/// Some cell from `c` on, empty in `g0`, lies in unit `u` and gets digit `v` in `g`.
pub open spec fn placed_in_row(g0: Seq<u8>, g: Seq<u8>, c: int, u: int, v: int) -> bool {
    exists|k: int| c <= k < 81 && g0[k] == 0 && row_of(k) == u && #[trigger] g[k] == v
}

/// Some cell from `c` on, empty in `g0`, lies in unit `u` and gets digit `v` in `g`.
pub open spec fn placed_in_col(g0: Seq<u8>, g: Seq<u8>, c: int, u: int, v: int) -> bool {
    exists|k: int| c <= k < 81 && g0[k] == 0 && col_of(k) == u && #[trigger] g[k] == v
}

/// Some cell from `c` on, empty in `g0`, lies in unit `u` and gets digit `v` in `g`.
pub open spec fn placed_in_quad(g0: Seq<u8>, g: Seq<u8>, c: int, u: int, v: int) -> bool {
    exists|k: int| c <= k < 81 && g0[k] == 0 && quad_of(k) == u && #[trigger] g[k] == v
}

/// The masks after the digits of `g` are written from cell `c` on are the
/// starting masks with, in each unit, the bits of the digits written there cleared.
pub proof fn lemma_placed_from_bits(m: Masks, g0: Seq<u8>, c: int, g: Seq<u8>)
    requires
        m.wf(),
        g0.len() == 81,
        0 <= c <= 81,
        forall|k: int| c <= k < 81 && g0[k] == 0 ==> 1 <= #[trigger] g[k] <= 9,
    ensures
        placed_from(m, g0, c, g).wf(),
        forall|u: int, i: int|
            0 <= u < 9 && 0 <= i < 16 ==> #[trigger] has_bit(placed_from(m, g0, c, g).rows[u], i) == (has_bit(
                m.rows[u],
                i,
            ) && !placed_in_row(g0, g, c, u, i + 1)),
        forall|u: int, i: int|
            0 <= u < 9 && 0 <= i < 16 ==> #[trigger] has_bit(placed_from(m, g0, c, g).cols[u], i) == (has_bit(
                m.cols[u],
                i,
            ) && !placed_in_col(g0, g, c, u, i + 1)),
        forall|u: int, i: int|
            0 <= u < 9 && 0 <= i < 16 ==> #[trigger] has_bit(placed_from(m, g0, c, g).quads[u], i) == (has_bit(
                m.quads[u],
                i,
            ) && !placed_in_quad(g0, g, c, u, i + 1)),
    decreases 81 - c,
{
    if c == 81 {
    } else if g0[c] != 0 {
        lemma_placed_from_bits(m, g0, c + 1, g);
        assert forall|u: int, v: int| #[trigger] placed_in_row(g0, g, c, u, v) == placed_in_row(g0, g, c + 1, u, v) by {
            if placed_in_row(g0, g, c, u, v) {
                let k = choose|k: int| c <= k < 81 && g0[k] == 0 && row_of(k) == u && #[trigger] g[k] == v;
                assert(k != c);
            }
        }
        assert forall|u: int, v: int| #[trigger] placed_in_col(g0, g, c, u, v) == placed_in_col(g0, g, c + 1, u, v) by {
            if placed_in_col(g0, g, c, u, v) {
                let k = choose|k: int| c <= k < 81 && g0[k] == 0 && col_of(k) == u && #[trigger] g[k] == v;
                assert(k != c);
            }
        }
        assert forall|u: int, v: int| #[trigger] placed_in_quad(g0, g, c, u, v) == placed_in_quad(g0, g, c + 1, u, v) by {
            if placed_in_quad(g0, g, c, u, v) {
                let k = choose|k: int| c <= k < 81 && g0[k] == 0 && quad_of(k) == u && #[trigger] g[k] == v;
                assert(k != c);
            }
        }
    } else {
        let m2 = m.place(c, g[c] as int);
        lemma_placed_from_bits(m2, g0, c + 1, g);
        assert forall|u: int, i: int| 0 <= u < 9 && 0 <= i < 16 implies #[trigger] has_bit(
            placed_from(m, g0, c, g).rows[u],
            i,
        ) == (has_bit(m.rows[u], i) && !placed_in_row(g0, g, c, u, i + 1)) by {
            lemma_clear_bit(m.rows[row_of(c)], g[c] - 1, i);
            assert(has_bit(placed_from(m2, g0, c + 1, g).rows[u], i) == (has_bit(m2.rows[u], i)
                && !placed_in_row(g0, g, c + 1, u, i + 1)));
            if placed_in_row(g0, g, c, u, i + 1) {
                let k = choose|k: int| c <= k < 81 && g0[k] == 0 && row_of(k) == u && #[trigger] g[k] == i + 1;
                if k != c {
                    assert(placed_in_row(g0, g, c + 1, u, i + 1));
                }
            }
            if placed_in_row(g0, g, c + 1, u, i + 1) {
                let k = choose|k: int| c + 1 <= k < 81 && g0[k] == 0 && row_of(k) == u && #[trigger] g[k] == i + 1;
                assert(placed_in_row(g0, g, c, u, i + 1));
            }
        }
        assert forall|u: int, i: int| 0 <= u < 9 && 0 <= i < 16 implies #[trigger] has_bit(
            placed_from(m, g0, c, g).cols[u],
            i,
        ) == (has_bit(m.cols[u], i) && !placed_in_col(g0, g, c, u, i + 1)) by {
            lemma_clear_bit(m.cols[col_of(c)], g[c] - 1, i);
            assert(has_bit(placed_from(m2, g0, c + 1, g).cols[u], i) == (has_bit(m2.cols[u], i)
                && !placed_in_col(g0, g, c + 1, u, i + 1)));
            if placed_in_col(g0, g, c, u, i + 1) {
                let k = choose|k: int| c <= k < 81 && g0[k] == 0 && col_of(k) == u && #[trigger] g[k] == i + 1;
                if k != c {
                    assert(placed_in_col(g0, g, c + 1, u, i + 1));
                }
            }
            if placed_in_col(g0, g, c + 1, u, i + 1) {
                let k = choose|k: int| c + 1 <= k < 81 && g0[k] == 0 && col_of(k) == u && #[trigger] g[k] == i + 1;
                assert(placed_in_col(g0, g, c, u, i + 1));
            }
        }
        assert forall|u: int, i: int| 0 <= u < 9 && 0 <= i < 16 implies #[trigger] has_bit(
            placed_from(m, g0, c, g).quads[u],
            i,
        ) == (has_bit(m.quads[u], i) && !placed_in_quad(g0, g, c, u, i + 1)) by {
            lemma_clear_bit(m.quads[quad_of(c)], g[c] - 1, i);
            assert(has_bit(placed_from(m2, g0, c + 1, g).quads[u], i) == (has_bit(m2.quads[u], i)
                && !placed_in_quad(g0, g, c + 1, u, i + 1)));
            if placed_in_quad(g0, g, c, u, i + 1) {
                let k = choose|k: int| c <= k < 81 && g0[k] == 0 && quad_of(k) == u && #[trigger] g[k] == i + 1;
                if k != c {
                    assert(placed_in_quad(g0, g, c + 1, u, i + 1));
                }
            }
            if placed_in_quad(g0, g, c + 1, u, i + 1) {
                let k = choose|k: int| c + 1 <= k < 81 && g0[k] == 0 && quad_of(k) == u && #[trigger] g[k] == i + 1;
                assert(placed_in_quad(g0, g, c, u, i + 1));
            }
        }
    }
}

/// On a consistent, conflict-free board, the completions from the first cell
/// are exactly the solved sudokus that keep the board's digits.
pub proof fn law_fill_is_solution(m: Masks, g0: Seq<u8>, g: Seq<u8>)
    requires
        m.wf(),
        cells_in_range(g0),
        consistent(m, g0),
        conflict_free(g0),
    ensures
        is_fill(m, g0, 0, g) == is_solution(g0, g),
{
    if is_fill(m, g0, 0, g) {
        assert forall|k: int| 0 <= k < 81 implies 1 <= #[trigger] g[k] <= 9 by {
            if g0[k] != 0 {
                assert(g[k] == g0[k]);
            }
        }
        assert forall|j: int, l: int| 0 <= j < l < 81 && same_unit(j, l) && g[j] != 0 implies #[trigger] g[j]
            != #[trigger] g[l] by {
            if g0[j] != 0 && g0[l] != 0 {
                assert(g0[j] != g0[l]);
            } else if g0[j] != 0 {
                assert(g[j] == g0[j]);
                assert(m.allows(l, g[l] as int));
                if row_of(j) == row_of(l) {
                    assert(row_contains(g0, row_of(l), g0[j] as int));
                }
                if col_of(j) == col_of(l) {
                    assert(col_contains(g0, col_of(l), g0[j] as int));
                }
                if quad_of(j) == quad_of(l) {
                    assert(quad_contains(g0, quad_of(l), g0[j] as int));
                }
            } else if g0[l] != 0 {
                assert(g[l] == g0[l]);
                assert(m.allows(j, g[j] as int));
                if row_of(j) == row_of(l) {
                    assert(row_contains(g0, row_of(j), g0[l] as int));
                }
                if col_of(j) == col_of(l) {
                    assert(col_contains(g0, col_of(j), g0[l] as int));
                }
                if quad_of(j) == quad_of(l) {
                    assert(quad_contains(g0, quad_of(j), g0[l] as int));
                }
            }
        }
    }
    if is_solution(g0, g) {
        assert forall|k: int| 0 <= k < 81 && g0[k] == 0 implies 1 <= #[trigger] g[k] <= 9 && m.allows(k, g[k] as int) by {
            if row_contains(g0, row_of(k), g[k] as int) {
                let j = choose|j: int| 0 <= j < 81 && row_of(j) == row_of(k) && #[trigger] g0[j] == g[k];
                assert(j != k && g[j] == g0[j] && same_unit(j, k));
                if j < k {
                    assert(g[j] != g[k]);
                } else {
                    assert(g[k] != g[j]);
                }
            }
            if col_contains(g0, col_of(k), g[k] as int) {
                let j = choose|j: int| 0 <= j < 81 && col_of(j) == col_of(k) && #[trigger] g0[j] == g[k];
                assert(j != k && g[j] == g0[j] && same_unit(j, k));
                if j < k {
                    assert(g[j] != g[k]);
                } else {
                    assert(g[k] != g[j]);
                }
            }
            if quad_contains(g0, quad_of(k), g[k] as int) {
                let j = choose|j: int| 0 <= j < 81 && quad_of(j) == quad_of(k) && #[trigger] g0[j] == g[k];
                assert(j != k && g[j] == g0[j] && same_unit(j, k));
                if j < k {
                    assert(g[j] != g[k]);
                } else {
                    assert(g[k] != g[j]);
                }
            }
        }
        assert forall|k: int| 0 <= k < 81 && (k < 0 || g0[k] != 0) implies #[trigger] g[k] == g0[k] by {
        }
        assert forall|j: int, k: int|
            0 <= j < k < 81 && g0[j] == 0 && g0[k] == 0 && same_unit(j, k) implies #[trigger] g[j]
                != #[trigger] g[k] by {
            assert(1 <= g[j]);
        }
    }
}

/// A completion of a consistent, conflict-free board is a solved sudoku, and
/// writing it leaves masks that agree with the completed grid.
pub proof fn law_placed_masks_consistent(m: Masks, g0: Seq<u8>, g: Seq<u8>)
    requires
        m.wf(),
        cells_in_range(g0),
        consistent(m, g0),
        conflict_free(g0),
        is_fill(m, g0, 0, g),
    ensures
        is_solution(g0, g),
        consistent(placed_from(m, g0, 0, g), g),
        conflict_free(g),
        cells_in_range(g),
{
    law_fill_is_solution(m, g0, g);
    lemma_placed_from_bits(m, g0, 0, g);
    let pm = placed_from(m, g0, 0, g);
    assert forall|u: int, i: int| 0 <= u < 9 && 0 <= i < 9 implies (#[trigger] has_bit(pm.rows[u], i)
        <==> !row_contains(g, u, i + 1)) by {
        if row_contains(g, u, i + 1) {
            let k = choose|k: int| 0 <= k < 81 && row_of(k) == u && #[trigger] g[k] == i + 1;
            if g0[k] != 0 {
                assert(row_contains(g0, u, i + 1));
            } else {
                assert(placed_in_row(g0, g, 0, u, i + 1));
            }
        }
        if row_contains(g0, u, i + 1) {
            let k = choose|k: int| 0 <= k < 81 && row_of(k) == u && #[trigger] g0[k] == i + 1;
            assert(g[k] == g0[k]);
        }
        if placed_in_row(g0, g, 0, u, i + 1) {
            let k = choose|k: int| 0 <= k < 81 && g0[k] == 0 && row_of(k) == u && #[trigger] g[k] == i + 1;
            assert(row_contains(g, u, i + 1));
        }
    }
    assert forall|u: int, i: int| 0 <= u < 9 && 0 <= i < 9 implies (#[trigger] has_bit(pm.cols[u], i)
        <==> !col_contains(g, u, i + 1)) by {
        if col_contains(g, u, i + 1) {
            let k = choose|k: int| 0 <= k < 81 && col_of(k) == u && #[trigger] g[k] == i + 1;
            if g0[k] != 0 {
                assert(col_contains(g0, u, i + 1));
            } else {
                assert(placed_in_col(g0, g, 0, u, i + 1));
            }
        }
        if col_contains(g0, u, i + 1) {
            let k = choose|k: int| 0 <= k < 81 && col_of(k) == u && #[trigger] g0[k] == i + 1;
            assert(g[k] == g0[k]);
        }
        if placed_in_col(g0, g, 0, u, i + 1) {
            let k = choose|k: int| 0 <= k < 81 && g0[k] == 0 && col_of(k) == u && #[trigger] g[k] == i + 1;
            assert(col_contains(g, u, i + 1));
        }
    }
    assert forall|u: int, i: int| 0 <= u < 9 && 0 <= i < 9 implies (#[trigger] has_bit(pm.quads[u], i)
        <==> !quad_contains(g, u, i + 1)) by {
        if quad_contains(g, u, i + 1) {
            let k = choose|k: int| 0 <= k < 81 && quad_of(k) == u && #[trigger] g[k] == i + 1;
            if g0[k] != 0 {
                assert(quad_contains(g0, u, i + 1));
            } else {
                assert(placed_in_quad(g0, g, 0, u, i + 1));
            }
        }
        if quad_contains(g0, u, i + 1) {
            let k = choose|k: int| 0 <= k < 81 && quad_of(k) == u && #[trigger] g0[k] == i + 1;
            assert(g[k] == g0[k]);
        }
        if placed_in_quad(g0, g, 0, u, i + 1) {
            let k = choose|k: int| 0 <= k < 81 && g0[k] == 0 && quad_of(k) == u && #[trigger] g[k] == i + 1;
            assert(quad_contains(g, u, i + 1));
        }
    }
}

/// Two boards of 81 cells that differ are ordered one way or the other.
pub proof fn lemma_lex_total(a: Seq<u8>, b: Seq<u8>, i: int)
    requires
        a.len() == 81,
        b.len() == 81,
        0 <= i <= 81,
        forall|j: int| 0 <= j < i ==> #[trigger] a[j] == b[j],
        a != b,
    ensures
        lex_less(a, b) || lex_less(b, a),
    decreases 81 - i,
{
    if i == 81 {
        assert(a =~= b);
    } else if a[i] == b[i] {
        lemma_lex_total(a, b, i + 1);
    } else if a[i] < b[i] {
        assert(lex_less(a, b));
    } else {
        assert forall|j: int| 0 <= j < i implies #[trigger] b[j] == a[j] by {
            assert(a[j] == b[j]);
        }
        assert(lex_less(b, a));
    }
}

/// There is at most one lexicographically first completion.
pub proof fn law_first_fill_unique(m: Masks, g0: Seq<u8>, c: int, g: Seq<u8>, h: Seq<u8>)
    requires
        is_first_fill(m, g0, c, g),
        is_first_fill(m, g0, c, h),
    ensures
        g == h,
{
    if g != h {
        lemma_lex_total(g, h, 0);
    }
}

/// No cell other than `k` in the units of `k` holds `v`.
pub open spec fn can_hold(cells: Seq<u8>, k: int, v: int) -> bool {
    forall|j: int| 0 <= j < 81 && j != k && same_unit(j, k) ==> #[trigger] cells[j] != v
}

/// Writing into an empty cell of a consistent, conflict-free board a digit
/// its units do not hold yet, and disallowing that digit there, keeps the
/// board consistent and conflict-free.
pub proof fn lemma_place_keeps_consistency(m: Masks, g0: Seq<u8>, k: int, v: int)
    requires
        m.wf(),
        cells_in_range(g0),
        0 <= k < 81,
        g0[k] == 0,
        1 <= v <= 9,
        can_hold(g0, k, v),
        consistent(m, g0),
        conflict_free(g0),
    ensures
        consistent(m.place(k, v), g0.update(k, v as u8)),
        conflict_free(g0.update(k, v as u8)),
{
    let m2 = m.place(k, v);
    let g1 = g0.update(k, v as u8);
    assert forall|u: int, i: int| 0 <= u < 9 && 0 <= i < 9 implies (#[trigger] has_bit(m2.rows[u], i)
        <==> !row_contains(g1, u, i + 1)) by {
        lemma_clear_bit(m.rows[u], v - 1, i);
        if u == row_of(k) && i == v - 1 {
            assert(g1[k] == v);
        } else {
            if row_contains(g0, u, i + 1) {
                let j = choose|j: int| 0 <= j < 81 && row_of(j) == u && #[trigger] g0[j] == i + 1;
                assert(j != k);
                assert(g1[j] == i + 1);
            }
            if row_contains(g1, u, i + 1) {
                let j = choose|j: int| 0 <= j < 81 && row_of(j) == u && #[trigger] g1[j] == i + 1;
                assert(j != k);
                assert(g0[j] == i + 1);
            }
        }
    }
    assert forall|u: int, i: int| 0 <= u < 9 && 0 <= i < 9 implies (#[trigger] has_bit(m2.cols[u], i)
        <==> !col_contains(g1, u, i + 1)) by {
        lemma_clear_bit(m.cols[u], v - 1, i);
        if u == col_of(k) && i == v - 1 {
            assert(g1[k] == v);
        } else {
            if col_contains(g0, u, i + 1) {
                let j = choose|j: int| 0 <= j < 81 && col_of(j) == u && #[trigger] g0[j] == i + 1;
                assert(j != k);
                assert(g1[j] == i + 1);
            }
            if col_contains(g1, u, i + 1) {
                let j = choose|j: int| 0 <= j < 81 && col_of(j) == u && #[trigger] g1[j] == i + 1;
                assert(j != k);
                assert(g0[j] == i + 1);
            }
        }
    }
    assert forall|u: int, i: int| 0 <= u < 9 && 0 <= i < 9 implies (#[trigger] has_bit(m2.quads[u], i)
        <==> !quad_contains(g1, u, i + 1)) by {
        lemma_clear_bit(m.quads[u], v - 1, i);
        if u == quad_of(k) && i == v - 1 {
            assert(g1[k] == v);
        } else {
            if quad_contains(g0, u, i + 1) {
                let j = choose|j: int| 0 <= j < 81 && quad_of(j) == u && #[trigger] g0[j] == i + 1;
                assert(j != k);
                assert(g1[j] == i + 1);
            }
            if quad_contains(g1, u, i + 1) {
                let j = choose|j: int| 0 <= j < 81 && quad_of(j) == u && #[trigger] g1[j] == i + 1;
                assert(j != k);
                assert(g0[j] == i + 1);
            }
        }
    }
    assert forall|j: int, l: int|
        0 <= j < l < 81 && same_unit(j, l) && g1[j] != 0 implies #[trigger] g1[j]
            != #[trigger] g1[l] by {
        if j == k {
            assert(g0[l] != v);
        } else if l == k {
            assert(g0[j] != v);
        } else {
            assert(g0[j] != g0[l]);
        }
    }
}

/// `g` is where one path of the generator's search through queue `q` stops:
/// `g0` with exactly `LEVEL + 1 - removed` of the cells listed at positions
/// `lo..hi` emptied, the last of them at position `hi - 1`.
pub open spec fn removal_leaf(g0: Seq<u8>, g: Seq<u8>, q: Seq<usize>, lo: int, hi: int, removed: int) -> bool {
    &&& lo <= hi <= 81
    &&& thinned(g0, g, q, lo, hi)
    &&& zeroed_count(g, q, lo, hi) == LEVEL + 1 - removed
    &&& hi > lo ==> g[q[hi - 1] as int] == 0
}

/// Going through queue `q` from position `lo`, the search meets `a` before
/// `b`: at the first position where they differ, `a` empties the cell and `b`
/// keeps it.
pub open spec fn searched_before(a: Seq<u8>, b: Seq<u8>, q: Seq<usize>, lo: int) -> bool {
    exists|pos: int|
        lo <= pos < 81 && #[trigger] a[q[pos] as int] == 0 && b[q[pos] as int] != 0 && forall|j: int|
            lo <= j < pos ==> (#[trigger] a[q[j] as int] == 0) == (b[q[j] as int] == 0)
}

pub proof fn lemma_zeroed_count_pos(g: Seq<u8>, q: Seq<usize>, lo: int, hi: int, pos: int)
    requires
        lo <= pos < hi,
        g[q[pos] as int] == 0,
    ensures
        zeroed_count(g, q, lo, hi) >= 1,
    decreases hi - lo,
{
    if lo < pos {
        lemma_zeroed_count_pos(g, q, lo + 1, hi, pos);
    }
}

/// With nothing left to empty, the only path stops at once and keeps the board.
pub proof fn lemma_leaf_done(g0: Seq<u8>, h: Seq<u8>, q: Seq<usize>, c: int, p: int)
    requires
        g0.len() == 81,
        removal_leaf(g0, h, q, c, p, LEVEL + 1),
    ensures
        p == c,
        h == g0,
{
    if p > c {
        lemma_zeroed_count_pos(h, q, c, p, p - 1);
    }
    assert forall|k: int| 0 <= k < 81 implies #[trigger] h[k] == g0[k] by {
        if h[k] != g0[k] {
            assert(queued(q, c, p, k));
        }
    }
    assert(h =~= g0);
}

/// The paths that empty the cell at position `c` are the paths from `c + 1`
/// of the board with that cell emptied.
pub proof fn lemma_leaf_remove(g0: Seq<u8>, h: Seq<u8>, q: Seq<usize>, c: int, p: int, r: int)
    requires
        g0.len() == 81,
        queue_ok(q),
        0 <= c < 81,
        g0[q[c] as int] != 0,
    ensures
        (removal_leaf(g0, h, q, c, p, r) && h[q[c] as int] == 0) == removal_leaf(
            g0.update(q[c] as int, 0),
            h,
            q,
            c + 1,
            p,
            r + 1,
        ),
{
    let k = q[c] as int;
    let g1 = g0.update(k, 0);
    if removal_leaf(g0, h, q, c, p, r) && h[k] == 0 {
        assert(queued(q, c, p, k));
        assert forall|j: int| 0 <= j < 81 && #[trigger] h[j] != g1[j] implies h[j] == 0 && queued(q, c + 1, p, j) by {
            assert(j != k);
            assert(h[j] != g0[j]);
            let pos = choose|pos: int| c <= pos < p && #[trigger] q[pos] == j;
            assert(pos != c);
        }
        assert(zeroed_count(h, q, c, p) == 1 + zeroed_count(h, q, c + 1, p));
    }
    if removal_leaf(g1, h, q, c + 1, p, r + 1) {
        assert(h[k] == 0) by {
            if h[k] != g1[k] {
                let pos = choose|pos: int| c + 1 <= pos < p && #[trigger] q[pos] == k;
                assert(q[pos] != q[c]);
            }
        }
        assert forall|j: int| 0 <= j < 81 && #[trigger] h[j] != g0[j] implies h[j] == 0 && queued(q, c, p, j) by {
            if j == k {
                assert(q[c] == j);
            } else {
                assert(g1[j] == g0[j]);
                let pos = choose|pos: int| c + 1 <= pos < p && #[trigger] q[pos] == j;
                assert(c <= pos < p);
            }
        }
        assert(zeroed_count(h, q, c, p) == 1 + zeroed_count(h, q, c + 1, p));
    }
}

/// The paths that keep the cell at position `c` are the paths from `c + 1`
/// of the same board, while there are cells still to empty.
pub proof fn lemma_leaf_keep(g0: Seq<u8>, h: Seq<u8>, q: Seq<usize>, c: int, p: int, r: int)
    requires
        g0.len() == 81,
        queue_ok(q),
        0 <= c < 81,
        g0[q[c] as int] != 0,
        r <= LEVEL,
    ensures
        (removal_leaf(g0, h, q, c, p, r) && h[q[c] as int] != 0) == removal_leaf(g0, h, q, c + 1, p, r),
{
    let k = q[c] as int;
    if removal_leaf(g0, h, q, c, p, r) && h[k] != 0 {
        assert(h[k] == g0[k]);
        assert(p > c);
        assert(p > c + 1);
        assert forall|j: int| 0 <= j < 81 && #[trigger] h[j] != g0[j] implies h[j] == 0 && queued(q, c + 1, p, j) by {
            let pos = choose|pos: int| c <= pos < p && #[trigger] q[pos] == j;
            assert(pos != c);
        }
        assert(zeroed_count(h, q, c, p) == zeroed_count(h, q, c + 1, p));
    }
    if removal_leaf(g0, h, q, c + 1, p, r) {
        assert(p > c + 1);
        assert(h[k] == g0[k]) by {
            if h[k] != g0[k] {
                let pos = choose|pos: int| c + 1 <= pos < p && #[trigger] q[pos] == k;
                assert(q[pos] != q[c]);
            }
        }
        assert forall|j: int| 0 <= j < 81 && #[trigger] h[j] != g0[j] implies h[j] == 0 && queued(q, c, p, j) by {
            let pos = choose|pos: int| c + 1 <= pos < p && #[trigger] q[pos] == j;
            assert(c <= pos < p);
        }
        assert(zeroed_count(h, q, c, p) == zeroed_count(h, q, c + 1, p));
    }
}

/// Meeting `a` before `b` from position `c` is decided at `c`, or else they
/// agree at `c` and it is decided from `c + 1`.
pub proof fn lemma_searched_before_step(a: Seq<u8>, b: Seq<u8>, q: Seq<usize>, c: int)
    requires
        searched_before(a, b, q, c),
    ensures
        (a[q[c] as int] == 0 && b[q[c] as int] != 0) || ((a[q[c] as int] == 0) == (b[q[c] as int]
            == 0) && searched_before(a, b, q, c + 1)),
{
    let pos = choose|pos: int|
        c <= pos < 81 && #[trigger] a[q[pos] as int] == 0 && b[q[pos] as int] != 0 && forall|j: int|
            c <= j < pos ==> (#[trigger] a[q[j] as int] == 0) == (b[q[j] as int] == 0);
    if pos > c {
        assert((a[q[c] as int] == 0) == (b[q[c] as int] == 0));
        assert(searched_before(a, b, q, c + 1));
    }
}

/// The masks where the generator's search along `q` reaches the end of path
/// `g`: each cell it empties has its digit (taken from `g0`) allowed again in
/// its units; each cell it keeps was emptied first and then filled again, so
/// its digit ends disallowed there.
pub open spec fn thinned_masks(m: Masks, g0: Seq<u8>, g: Seq<u8>, q: Seq<usize>, lo: int, hi: int) -> Masks
    decreases hi - lo,
{
    if lo >= hi {
        m
    } else {
        let k = q[lo] as int;
        let v = g0[k] as int;
        if g[k] == 0 {
            thinned_masks(m.unplace(k, v), g0, g, q, lo + 1, hi)
        } else {
            thinned_masks(m.unplace(k, v).place(k, v), g0, g, q, lo + 1, hi)
        }
    }
}

/// The generator accepts path `g`, stopping at queue position `hi`, when
/// started from masks `m`: it is a path of the search, and under the masks
/// there `g` does not have two completions from cell `hi` on.
pub open spec fn accepted_leaf(m: Masks, g0: Seq<u8>, g: Seq<u8>, q: Seq<usize>, lo: int, hi: int, removed: int) -> bool {
    &&& removal_leaf(g0, g, q, lo, hi, removed)
    &&& !has_two_fills(thinned_masks(m, g0, g, q, lo, hi), g, hi)
}

/// The masks along a path depend only on the digits of `g0` in the cells the
/// path goes through.
pub proof fn lemma_thinned_masks_agree(m: Masks, g0: Seq<u8>, g1: Seq<u8>, g: Seq<u8>, q: Seq<usize>, lo: int, hi: int)
    requires
        forall|j: int| lo <= j < hi ==> #[trigger] g0[q[j] as int] == g1[q[j] as int],
    ensures
        thinned_masks(m, g0, g, q, lo, hi) == thinned_masks(m, g1, g, q, lo, hi),
    decreases hi - lo,
{
    if lo < hi {
        let k = q[lo] as int;
        let v = g0[k] as int;
        assert(g0[q[lo] as int] == g1[q[lo] as int]);
        if g[k] == 0 {
            lemma_thinned_masks_agree(m.unplace(k, v), g0, g1, g, q, lo + 1, hi);
        } else {
            lemma_thinned_masks_agree(m.unplace(k, v).place(k, v), g0, g1, g, q, lo + 1, hi);
        }
    }
}

/// One step of the search: a path that empties the cell at position `c`
/// continues from `c + 1` on the board with that cell emptied and its digit
/// allowed again; a path that keeps it continues on the same board with the
/// digit allowed and disallowed again.
pub proof fn lemma_thinned_masks_step(m: Masks, g0: Seq<u8>, h: Seq<u8>, q: Seq<usize>, c: int, p: int)
    requires
        g0.len() == 81,
        queue_ok(q),
        0 <= c < p <= 81,
    ensures
        h[q[c] as int] == 0 ==> thinned_masks(m, g0, h, q, c, p) == thinned_masks(
            m.unplace(q[c] as int, g0[q[c] as int] as int),
            g0.update(q[c] as int, 0),
            h,
            q,
            c + 1,
            p,
        ),
        h[q[c] as int] != 0 ==> thinned_masks(m, g0, h, q, c, p) == thinned_masks(
            m.unplace(q[c] as int, g0[q[c] as int] as int).place(q[c] as int, g0[q[c] as int] as int),
            g0,
            h,
            q,
            c + 1,
            p,
        ),
{
    let k = q[c] as int;
    let v = g0[k] as int;
    assert forall|j: int| c + 1 <= j < p implies #[trigger] g0[q[j] as int] == g0.update(k, 0)[q[j] as int] by {
        assert(q[j] != q[c]);
    }
    lemma_thinned_masks_agree(m.unplace(k, v), g0, g0.update(k, 0), h, q, c + 1, p);
}

} // verus!
