//! The board: its cells and the candidate masks of its rows, columns and boxes.
use vstd::prelude::*;
use array2d::Array2D;
use crate::bits::{
    bit_of, has_bit, lemma_clear_then_set, lemma_full_mask, lemma_has_bit_and3, lists_low_nine_ones,
    low_nine_ones,
};
use crate::grid::{grid_cells, grid_clone, grid_domain, grid_filled, grid_get, grid_set};
use crate::rules::{
    cells_in_range, same_unit, col_of, conflict_free, consistent, fill_count_capped, has_fill, has_two_fills,
    is_fill, is_first_fill, law_placed_masks_consistent, lemma_fill_end, lemma_fill_skip,
    lemma_fill_step, lemma_leaf_done, lemma_leaf_keep, lemma_leaf_remove, lemma_thinned_masks_step,
    lemma_placed_from_agree, lemma_remove_keeps_consistency, lemma_searched_before_step,
    lemma_unplace_then_place, lex_less, placed_from, quad_of, queue_ok, removal_leaf, row_of,
    searched_before, zeroed_count, Masks, LEVEL, accepted_leaf, thinned_masks,
};
use crate::shuffle::{is_permutation_witness, shuffle_positions};
use crate::laws::law_set_value_stores;

verus! {

/// The cells of a 9x9 grid, numbered row by row.
pub open spec fn cells_of(m: Map<(usize, usize), u8>) -> Seq<u8> {
    Seq::new(81, |k: int| m[((k / 9) as usize, (k % 9) as usize)])
}

/// A sudoku board. Each cell holds 0 (empty) or a digit 1..=9; for each
/// row, column and 3x3 box a 16-bit mask records which digits may still go
/// there (bit `i` for digit `i + 1`).
pub struct Playfield {
    values: Array2D<u8>,
    poss_rows: [u16; 9],
    poss_cols: [u16; 9],
    poss_quads: [u16; 9],
    solved: bool,
}

/// The abstract state of a board.
pub struct PlayfieldView {
    pub cells: Seq<u8>,
    pub masks: Masks,
    pub solved: bool,
}

impl View for Playfield {
    type V = PlayfieldView;

    closed spec fn view(&self) -> PlayfieldView {
        PlayfieldView {
            cells: cells_of(grid_cells(self.values)),
            masks: Masks {
                rows: self.poss_rows@,
                cols: self.poss_cols@,
                quads: self.poss_quads@,
            },
            solved: self.solved,
        }
    }
}

/// The index of the cell at `row`, `col`.
pub open spec fn cell_index(row: int, col: int) -> int {
    row * 9 + col
}

/// The cell at `row`, `col` lies in that row, that column and the box they
/// meet in.
pub proof fn lemma_cell_index(row: int, col: int)
    requires
        0 <= row < 9,
        0 <= col < 9,
    ensures
        0 <= cell_index(row, col) < 81,
        row_of(cell_index(row, col)) == row,
        col_of(cell_index(row, col)) == col,
        quad_of(cell_index(row, col)) == (row / 3) * 3 + col / 3,
{
}

/// Writing `v` at `(row, col)` of a 9x9 grid changes exactly one cell.
pub proof fn lemma_cells_of_insert(m: Map<(usize, usize), u8>, row: usize, col: usize, v: u8)
    requires
        m.dom() == grid_domain(9, 9),
        row < 9,
        col < 9,
    ensures
        m.insert((row, col), v).dom() == grid_domain(9, 9),
        cells_of(m.insert((row, col), v)) == cells_of(m).update(cell_index(row as int, col as int), v),
{
    lemma_cell_index(row as int, col as int);
    let k = cell_index(row as int, col as int);
    assert(m.insert((row, col), v).dom() =~= grid_domain(9, 9));
    assert forall|j: int| 0 <= j < 81 implies #[trigger] cells_of(m.insert((row, col), v))[j]
        == cells_of(m).update(k, v)[j] by {
        if j != k {
            assert(((j / 9) as usize, (j % 9) as usize) != (row, col));
        }
    }
    assert(cells_of(m.insert((row, col), v)) =~= cells_of(m).update(k, v));
}

/// A 9x9 grid whose cells all hold 0..=9.
pub open spec fn grid_ok(m: Map<(usize, usize), u8>) -> bool {
    m.dom() == grid_domain(9, 9) && cells_in_range(cells_of(m))
}

/// The board after `val` is written into cell `k`: writing the value already
/// there changes nothing; writing 0 empties the cell and allows its old digit
/// again in its units; writing a digit disallows that digit in its units.
pub open spec fn after_set(b: PlayfieldView, k: int, val: u8) -> PlayfieldView {
    let cur = b.cells[k];
    if val == cur {
        b
    } else if val == 0 {
        PlayfieldView { cells: b.cells.update(k, 0), masks: b.masks.unplace(k, cur as int), solved: b.solved }
    } else {
        PlayfieldView { cells: b.cells.update(k, val), masks: b.masks.place(k, val as int), solved: b.solved }
    }
}

/// What generating a puzzle from queue `q` does to a board `before`, leaving
/// `after`: the board is first solved to its lexicographically first
/// completion `sol`, which leaves the masks `solved_masks`; then the cells
/// become the first puzzle the search along `q` accepts when thinning `sol`
/// out, with the masks where that search stops; the puzzle has at most one
/// completion from the cell numbered by its stop position on. On a consistent,
/// conflict-free board the masks end consistent with the puzzle.
pub open spec fn generate_outcome(before: PlayfieldView, after: PlayfieldView, q: Seq<usize>) -> bool {
    exists|sol: Seq<u8>|
        #[trigger] is_first_fill(before.masks, before.cells, 0, sol) && {
            let solved_masks = placed_from(before.masks, before.cells, 0, sol);
            &&& after.solved == before.solved
            &&& exists|p: int|
                #[trigger] accepted_leaf(solved_masks, sol, after.cells, q, 0, p, 0) && after.masks
                    == thinned_masks(solved_masks, sol, after.cells, q, 0, p) && fill_count_capped(
                    after.masks,
                    after.cells,
                    p,
                ) <= 1
            &&& forall|h: Seq<u8>, p: int|
                #[trigger] accepted_leaf(solved_masks, sol, h, q, 0, p, 0) ==> !searched_before(
                    h,
                    after.cells,
                    q,
                    0,
                )
            &&& consistent(before.masks, before.cells) && conflict_free(before.cells) ==> consistent(
                after.masks,
                after.cells,
            ) && conflict_free(after.cells)
        }
}

/// The digit of cell `c` in `h` is one of the first `n` candidates in `ones`.
spec fn tried(ones: Seq<usize>, n: int, h: Seq<u8>, c: int) -> bool {
    ones.subrange(0, n).contains((h[c] - 1) as usize)
}

impl Playfield {
    /// The board's grid is 9x9 and each cell holds 0..=9.
    pub closed spec fn wf(&self) -> bool {
        &&& grid_cells(self.values).dom() == grid_domain(9, 9)
        &&& cells_in_range(self@.cells)
    }

    /// A well-formed board's cells hold 0..=9 and it has nine masks per kind of unit.
    pub proof fn lemma_wf_cells(&self)
        requires
            self.wf(),
        ensures
            cells_in_range(self@.cells),
            self@.masks.wf(),
    {
    }

    /// An empty board on which every digit is allowed everywhere.
    pub fn new() -> (p: Self)
        ensures
            p.wf(),
            p@.cells == Seq::new(81, |k: int| 0u8),
            p@.masks == (Masks {
                rows: Seq::new(9, |u: int| 0xffffu16),
                cols: Seq::new(9, |u: int| 0xffffu16),
                quads: Seq::new(9, |u: int| 0xffffu16),
            }),
            !p@.solved,
            consistent(p@.masks, p@.cells),
            conflict_free(p@.cells),
    {
        let p = Playfield {
            values: grid_filled(0, 9, 9),
            poss_rows: [0xffffu16; 9],
            poss_cols: [0xffffu16; 9],
            poss_quads: [0xffffu16; 9],
            solved: false,
        };
        assert(p@.cells =~= Seq::new(81, |k: int| 0u8)) by {
            assert forall|k: int| 0 <= k < 81 implies p@.cells[k] == 0u8 by {
                assert(grid_domain(9, 9).contains(((k / 9) as usize, (k % 9) as usize)));
            }
        }
        assert(p@.masks.rows =~= Seq::new(9, |u: int| 0xffffu16));
        assert(p@.masks.cols =~= Seq::new(9, |u: int| 0xffffu16));
        assert(p@.masks.quads =~= Seq::new(9, |u: int| 0xffffu16));
        assert forall|i: int| 0 <= i < 9 implies has_bit(0xffffu16, i) by {
            lemma_full_mask(i);
        }
        p
    }

    /// The value in the cell at `row`, `col` (0 when empty).
    pub fn value(&self, row: usize, col: usize) -> (v: u8)
        requires
            self.wf(),
            row < 9,
            col < 9,
        ensures
            v == self@.cells[cell_index(row as int, col as int)],
    {
        proof {
            lemma_cell_index(row as int, col as int);
            assert(grid_domain(9, 9).contains((row, col)));
        }
        grid_get(&self.values, row, col)
    }

    /// Writes `val` into the cell at `row`, `col`. Writing 0 empties the cell and
    /// allows its old digit again in the cell's row, column and box; writing a
    /// digit disallows it there. Writing the value the cell already holds
    /// changes nothing.
    pub fn set_value(&mut self, row: usize, col: usize, val: u8)
        requires
            old(self).wf(),
            row < 9,
            col < 9,
            val <= 9,
        ensures
            final(self).wf(),
            final(self)@ == after_set(old(self)@, cell_index(row as int, col as int), val),
            final(self)@.cells == old(self)@.cells.update(cell_index(row as int, col as int), val),
            final(self)@.solved == old(self)@.solved,
            val != 0 && val != old(self)@.cells[cell_index(row as int, col as int)] ==> forall|j: int|
                0 <= j < 81 && same_unit(j, cell_index(row as int, col as int)) ==> !#[trigger] final(self)@.masks.allows(j, val as int),
    {
        let ghost k = cell_index(row as int, col as int);
        proof {
            lemma_cell_index(row as int, col as int);
            self.lemma_wf_cells();
            law_set_value_stores(self@, k, val);
        }
        let quad = (row / 3) * 3 + col / 3;
        let current_val = self.value(row, col);
        if val == current_val {
            return;
        }
        if val == 0 {
            let mov_bin = bit_of((current_val - 1) as usize);
            self.write_cell(row, col, 0);
            self.poss_rows[row] = self.poss_rows[row] | mov_bin;
            self.poss_cols[col] = self.poss_cols[col] | mov_bin;
            self.poss_quads[quad] = self.poss_quads[quad] | mov_bin;
            return;
        }
        let mov_bin_inv = !bit_of((val - 1) as usize);
        self.poss_rows[row] = self.poss_rows[row] & mov_bin_inv;
        self.poss_cols[col] = self.poss_cols[col] & mov_bin_inv;
        self.poss_quads[quad] = self.poss_quads[quad] & mov_bin_inv;
        self.write_cell(row, col, val);
    }

    /// Searches, cell by cell from `cursor` on, for the lexicographically first
    /// completion of `values` under the board's masks, trying the allowed digits
    /// of each empty cell in ascending order. On success `values` and the masks
    /// are left as the completion leaves them; otherwise both are restored.
    fn find_solution_(&mut self, values: &mut Array2D<u8>, cursor: usize) -> (result: Option<
        Array2D<u8>,
    >)
        requires
            grid_ok(grid_cells(*old(values))),
            cursor <= 81,
        ensures
            grid_ok(grid_cells(*final(values))),
            final(self).values == old(self).values,
            final(self).solved == old(self).solved,
            match result {
                Some(sol) => {
                    &&& is_first_fill(
                        old(self)@.masks,
                        cells_of(grid_cells(*old(values))),
                        cursor as int,
                        cells_of(grid_cells(sol)),
                    )
                    &&& grid_cells(sol) == grid_cells(*final(values))
                    &&& final(self)@.masks == placed_from(
                        old(self)@.masks,
                        cells_of(grid_cells(*old(values))),
                        cursor as int,
                        cells_of(grid_cells(sol)),
                    )
                },
                None => {
                    &&& !has_fill(
                        old(self)@.masks,
                        cells_of(grid_cells(*old(values))),
                        cursor as int,
                    )
                    &&& final(self)@.masks == old(self)@.masks
                    &&& grid_cells(*final(values)) == grid_cells(*old(values))
                },
            },
        decreases 81 - cursor,
    {
        let ghost map0 = grid_cells(*values);
        let ghost g0 = cells_of(map0);
        let ghost m = self@.masks;
        let ghost c = cursor as int;
        if cursor >= 81 {
            let sol = grid_clone(values);
            proof {
                assert forall|h: Seq<u8>| is_fill(m, g0, c, h) == (h == g0) by {
                    lemma_fill_end(m, g0, h);
                }
                assert forall|h: Seq<u8>| #[trigger] is_fill(m, g0, c, h) implies !lex_less(h, g0) by {
                    if lex_less(h, g0) {
                        let i = choose|i: int|
                            0 <= i < h.len() && i < g0.len() && h[i] < g0[i] && forall|j: int|
                                0 <= j < i ==> #[trigger] h[j] == g0[j];
                    }
                }
            }
            return Some(sol);
        }
        let row = cursor / 9;
        let col = cursor % 9;
        proof {
            lemma_cell_index(row as int, col as int);
            assert(grid_domain(9, 9).contains((row, col)));
        }
        let quad = (row / 3) * 3 + col / 3;
        let field_val = grid_get(values, row, col);
        if field_val > 0 {
            let option = self.find_solution_(values, cursor + 1);
            proof {
                assert forall|h: Seq<u8>| is_fill(m, g0, c, h) == is_fill(m, g0, c + 1, h) by {
                    lemma_fill_skip(m, g0, c, h);
                }
            }
            if option.is_some() {
                return option;
            }
        } else {
            let poss = self.poss_rows[row] & self.poss_cols[col] & self.poss_quads[quad];
            let ones = low_nine_ones(poss);
            let mut idx: usize = 0;
            while idx < ones.len()
                invariant
                    0 <= idx <= ones.len(),
                    lists_low_nine_ones(poss, ones@),
                    poss == m.rows[row as int] & m.cols[col as int] & m.quads[quad as int],
                    row == row_of(c),
                    col == col_of(c),
                    quad == quad_of(c),
                    0 <= c < 81,
                    c == cursor,
                    g0 == cells_of(map0),
                    grid_ok(map0),
                    g0[c] == 0,
                    m.wf(),
                    self@.masks == m,
                    m == old(self)@.masks,
                    map0 == grid_cells(*old(values)),
                    self.values == old(self).values,
                    self.solved == old(self).solved,
                    grid_cells(*values) == map0,
                    forall|h: Seq<u8>|
                        #[trigger] is_fill(m, g0, c, h) ==> !ones@.subrange(0, idx as int).contains(
                            (h[c] - 1) as usize,
                        ),
                decreases ones.len() - idx,
            {
                let mov_zero_based = ones[idx];
                let ghost v = mov_zero_based + 1;
                proof {
                    lemma_has_bit_and3(m.rows[row as int], m.cols[col as int], m.quads[quad as int], v - 1);
                    assert(m.allows(c, v));
                }
                let mov_bin = bit_of(mov_zero_based);
                let mov_bin_inv = !mov_bin;
                self.poss_rows[row] = self.poss_rows[row] & mov_bin_inv;
                self.poss_cols[col] = self.poss_cols[col] & mov_bin_inv;
                self.poss_quads[quad] = self.poss_quads[quad] & mov_bin_inv;
                grid_set(values, row, col, (mov_zero_based + 1) as u8);
                let ghost m2 = m.place(c, v);
                let ghost g1 = g0.update(c, v as u8);
                proof {
                    assert(self@.masks.rows =~= m2.rows);
                    assert(self@.masks.cols =~= m2.cols);
                    assert(self@.masks.quads =~= m2.quads);
                    lemma_cells_of_insert(map0, row, col, v as u8);
                }
                let option = self.find_solution_(values, cursor + 1);
                if option.is_some() {
                    proof {
                        let sol = cells_of(grid_cells(option.unwrap()));
                        lemma_fill_step(m, g0, c, v, sol);
                        assert(sol[c] == v);
                        assert forall|h: Seq<u8>| #[trigger] is_fill(m, g0, c, h) implies !lex_less(h, sol) by {
                            if lex_less(h, sol) {
                                let i = choose|i: int|
                                    0 <= i < h.len() && i < sol.len() && h[i] < sol[i] && forall|j: int|
                                        0 <= j < i ==> #[trigger] h[j] == sol[j];
                                if i < c {
                                    assert(h[i] == g0[i] && sol[i] == g0[i]);
                                } else if i == c {
                                    lemma_has_bit_and3(m.rows[row as int], m.cols[col as int], m.quads[quad as int], h[c] - 1);
                                    assert(ones@.contains((h[c] - 1) as usize));
                                    let jj = choose|jj: int| 0 <= jj < ones@.len() && #[trigger] ones@[jj] == (h[c] - 1) as usize;
                                    if jj >= idx {
                                        if jj > idx {
                                            assert(ones@[idx as int] < ones@[jj]);
                                        }
                                    }
                                    assert(ones@.subrange(0, idx as int)[jj] == ones@[jj]);
                                } else {
                                    assert(h[c] == sol[c]);
                                    lemma_fill_step(m, g0, c, v, h);
                                    assert(is_fill(m2, g1, c + 1, h));
                                }
                            }
                        }
                        assert(placed_from(m, g0, c, sol) == placed_from(m2, g0, c + 1, sol));
                        lemma_placed_from_agree(m2, g0, g1, c + 1, sol);
                    }
                    return option;
                }
                grid_set(values, row, col, 0);
                self.poss_rows[row] = self.poss_rows[row] | mov_bin;
                self.poss_cols[col] = self.poss_cols[col] | mov_bin;
                self.poss_quads[quad] = self.poss_quads[quad] | mov_bin;
                proof {
                    lemma_clear_then_set(m.rows[row as int], v - 1);
                    lemma_clear_then_set(m.cols[col as int], v - 1);
                    lemma_clear_then_set(m.quads[quad as int], v - 1);
                    assert(self@.masks.rows =~= m.rows);
                    assert(self@.masks.cols =~= m.cols);
                    assert(self@.masks.quads =~= m.quads);
                    assert(grid_cells(*values) =~= map0);
                    assert forall|h: Seq<u8>| #[trigger] is_fill(m, g0, c, h) implies !ones@.subrange(0, idx + 1).contains(
                        (h[c] - 1) as usize,
                    ) by {
                        lemma_fill_step(m, g0, c, v, h);
                        assert(!ones@.subrange(0, idx as int).contains((h[c] - 1) as usize));
                        if ones@.subrange(0, idx + 1).contains((h[c] - 1) as usize) {
                            let jj = choose|jj: int| 0 <= jj < idx + 1 && #[trigger] ones@.subrange(0, idx + 1)[jj] == (h[c] - 1) as usize;
                            if jj < idx {
                                assert(ones@.subrange(0, idx as int)[jj] == ones@[jj]);
                            }
                        }
                    }
                }
                idx = idx + 1;
            }
            proof {
                assert forall|h: Seq<u8>| !is_fill(m, g0, c, h) by {
                    if is_fill(m, g0, c, h) {
                        lemma_has_bit_and3(m.rows[row as int], m.cols[col as int], m.quads[quad as int], h[c] - 1);
                        assert(ones@.subrange(0, idx as int) =~= ones@);
                    }
                }
            }
        }
        None
    }

    /// Counts the completions of `values` from `cursor` on under the board's
    /// masks, stopping as soon as a second one is found: 0, 1, or 2 for "more
    /// than one". `values` and the masks are left as they were.
    fn multiple_solutions_(&mut self, values: &mut Array2D<u8>, cursor: usize) -> (count: u8)
        requires
            grid_ok(grid_cells(*old(values))),
            cursor <= 81,
        ensures
            count == fill_count_capped(
                old(self)@.masks,
                cells_of(grid_cells(*old(values))),
                cursor as int,
            ),
            final(self)@ == old(self)@,
            final(self).values == old(self).values,
            grid_cells(*final(values)) == grid_cells(*old(values)),
        decreases 81 - cursor,
    {
        let ghost map0 = grid_cells(*values);
        let ghost g0 = cells_of(map0);
        let ghost m = self@.masks;
        let ghost c = cursor as int;
        let ghost c1 = c + 1;
        if cursor >= 81 {
            proof {
                assert forall|h: Seq<u8>| is_fill(m, g0, c, h) == (h == g0) by {
                    lemma_fill_end(m, g0, h);
                }
                assert(is_fill(m, g0, c, g0));
            }
            return 1;
        }
        let row = cursor / 9;
        let col = cursor % 9;
        proof {
            lemma_cell_index(row as int, col as int);
            assert(grid_domain(9, 9).contains((row, col)));
        }
        let field_val = grid_get(values, row, col);
        let mut solution_count: u8 = 0;
        if field_val > 0 {
            solution_count = solution_count + self.multiple_solutions_(values, cursor + 1);
            proof {
                assert forall|h: Seq<u8>| is_fill(m, g0, c, h) == is_fill(m, g0, c + 1, h) by {
                    lemma_fill_skip(m, g0, c, h);
                }
                if has_fill(m, g0, c + 1) {
                    let g = choose|g: Seq<u8>| is_fill(m, g0, c1, g);
                    assert(is_fill(m, g0, c, g));
                }
                if has_two_fills(m, g0, c + 1) {
                    let (g, h) = choose|g: Seq<u8>, h: Seq<u8>| is_fill(m, g0, c1, g) && is_fill(m, g0, c1, h) && g != h;
                    assert(is_fill(m, g0, c, g) && is_fill(m, g0, c, h));
                }
            }
        } else {
            let quad = (row / 3) * 3 + col / 3;
            let poss: u16 = self.poss_rows[row] & self.poss_cols[col] & self.poss_quads[quad];
            let ones = low_nine_ones(poss);
            let mut idx: usize = 0;
            while idx < ones.len()
                invariant
                    0 <= idx <= ones.len(),
                    lists_low_nine_ones(poss, ones@),
                    poss == m.rows[row as int] & m.cols[col as int] & m.quads[quad as int],
                    row == row_of(c),
                    col == col_of(c),
                    quad == quad_of(c),
                    0 <= c < 81,
                    c == cursor,
                    c1 == c + 1,
                    g0 == cells_of(map0),
                    grid_ok(map0),
                    g0[c] == 0,
                    m.wf(),
                    self@.masks == m,
                    old(self)@ == self@,
                    m == old(self)@.masks,
                    map0 == grid_cells(*old(values)),
                    self.values == old(self).values,
                    grid_cells(*values) == map0,
                    solution_count <= 1,
                    solution_count == 0 ==> forall|h: Seq<u8>|
                        #[trigger] is_fill(m, g0, c, h) ==> !tried(ones@, idx as int, h, c),
                    solution_count == 1 ==> exists|g: Seq<u8>|
                        #[trigger] is_fill(m, g0, c, g) && tried(ones@, idx as int, g, c)
                            && forall|h: Seq<u8>|
                            #[trigger] is_fill(m, g0, c, h) && tried(ones@, idx as int, h, c) ==> h == g,
                decreases ones.len() - idx,
            {
                let mov_zero_based = ones[idx];
                let ghost v = mov_zero_based + 1;
                proof {
                    lemma_has_bit_and3(m.rows[row as int], m.cols[col as int], m.quads[quad as int], v - 1);
                    assert(m.allows(c, v));
                }
                let mov_bin = bit_of(mov_zero_based);
                let mov_bin_inv = !mov_bin;
                self.poss_rows[row] = self.poss_rows[row] & mov_bin_inv;
                self.poss_cols[col] = self.poss_cols[col] & mov_bin_inv;
                self.poss_quads[quad] = self.poss_quads[quad] & mov_bin_inv;
                grid_set(values, row, col, (mov_zero_based + 1) as u8);
                let ghost m2 = m.place(c, v);
                let ghost g1 = g0.update(c, v as u8);
                proof {
                    assert(self@.masks.rows =~= m2.rows);
                    assert(self@.masks.cols =~= m2.cols);
                    assert(self@.masks.quads =~= m2.quads);
                    lemma_cells_of_insert(map0, row, col, v as u8);
                }
                let sub = self.multiple_solutions_(values, cursor + 1);

                let ghost prev = solution_count;
                solution_count = solution_count + sub;
                grid_set(values, row, col, 0);
                self.poss_rows[row] = self.poss_rows[row] | mov_bin;
                self.poss_cols[col] = self.poss_cols[col] | mov_bin;
                self.poss_quads[quad] = self.poss_quads[quad] | mov_bin;
                proof {
                    lemma_clear_then_set(m.rows[row as int], v - 1);
                    lemma_clear_then_set(m.cols[col as int], v - 1);
                    lemma_clear_then_set(m.quads[quad as int], v - 1);
                    assert(self@.masks.rows =~= m.rows);
                    assert(self@.masks.cols =~= m.cols);
                    assert(self@.masks.quads =~= m.quads);
                    assert(grid_cells(*values) =~= map0);
                    // completions with `v` in cell `c` are the completions one cell on
                    assert forall|h: Seq<u8>| (#[trigger] is_fill(m, g0, c, h) && h[c] == v) == is_fill(m2, g1, c + 1, h) by {
                        lemma_fill_step(m, g0, c, v, h);
                    }
                    // the candidates tried so far, and one more
                    assert forall|h: Seq<u8>| #[trigger] is_fill(m, g0, c, h) implies
                        (tried(ones@, idx + 1, h, c) == (tried(ones@, idx as int, h, c) || h[c] == v))
                        && (tried(ones@, idx as int, h, c) ==> h[c] != v) by {
                        if tried(ones@, idx + 1, h, c) {
                            let jj = choose|jj: int| 0 <= jj < idx + 1 && #[trigger] ones@.subrange(0, idx + 1)[jj] == (h[c] - 1) as usize;
                            if jj < idx {
                                assert(ones@.subrange(0, idx as int)[jj] == ones@[jj]);
                            }
                        }
                        if tried(ones@, idx as int, h, c) {
                            let jj = choose|jj: int| 0 <= jj < idx && #[trigger] ones@.subrange(0, idx as int)[jj] == (h[c] - 1) as usize;
                            assert(ones@.subrange(0, idx + 1)[jj] == ones@[jj]);
                            assert(ones@[jj] < ones@[idx as int]);
                        }
                        if h[c] == v {
                            assert(ones@.subrange(0, idx + 1)[idx as int] == ones@[idx as int]);
                        }
                    }
                    if solution_count > 1 {
                        if sub == 2 {
                            let (g, h) = choose|g: Seq<u8>, h: Seq<u8>| is_fill(m2, g1, c1, g) && is_fill(m2, g1, c1, h) && g != h;
                            assert(is_fill(m, g0, c, g) && is_fill(m, g0, c, h));
                        } else {
                            let g = choose|g: Seq<u8>|
                                #[trigger] is_fill(m, g0, c, g) && tried(ones@, idx as int, g, c)
                                    && forall|h: Seq<u8>|
                                    #[trigger] is_fill(m, g0, c, h) && tried(ones@, idx as int, h, c) ==> h == g;
                            let h = choose|h: Seq<u8>| is_fill(m2, g1, c1, h);
                            assert(is_fill(m, g0, c, h) && h[c] == v);
                            assert(g[c] != v);
                        }
                        assert(has_two_fills(m, g0, c));
                    } else if sub == 1 {
                        let g = choose|g: Seq<u8>| is_fill(m2, g1, c1, g);
                        assert(is_fill(m, g0, c, g));
                        assert forall|h: Seq<u8>| #[trigger] is_fill(m, g0, c, h) && tried(ones@, idx + 1, h, c) implies h == g by {
                            if h != g {
                                assert(is_fill(m2, g1, c + 1, h));
                            }
                        }
                    } else {
                        assert forall|h: Seq<u8>| #[trigger] is_fill(m, g0, c, h) implies h[c] != v by {
                            if h[c] == v {
                                assert(is_fill(m2, g1, c + 1, h));
                            }
                        }
                    }
                }
                if solution_count > 1 {
                    return 2;
                }
                idx = idx + 1;
            }
            proof {
                assert forall|h: Seq<u8>| #[trigger] is_fill(m, g0, c, h) implies tried(ones@, idx as int, h, c) by {
                    lemma_has_bit_and3(m.rows[row as int], m.cols[col as int], m.quads[quad as int], h[c] - 1);
                    assert(ones@.subrange(0, idx as int) =~= ones@);
                }
                if solution_count == 1 {
                    assert(!has_two_fills(m, g0, c));
                }
            }
        }
        solution_count
    }

    /// Thins out the full grid `values`: going through the cells listed in
    /// `fields_queue` from position `cursor` on, it first tries emptying each one
    /// and only keeps it filled when no puzzle can be reached that way. A puzzle
    /// is reached once `LEVEL + 1` cells are empty and the board does not have
    /// two completions from the current queue position (read as a cell number)
    /// on. The queue must still hold enough cells to empty; then a puzzle is
    /// always found, and it is the first one the search meets. Only a failed
    /// final check returns `None`, with the board untouched.
    fn generate_(
        &mut self,
        values: &mut Array2D<u8>,
        fields_queue: [usize; 81],
        cursor: usize,
        removed_count: u8,
    ) -> (result: Option<Array2D<u8>>)
        requires
            grid_ok(grid_cells(*old(values))),
            cursor <= 81,
            removed_count <= LEVEL + 1,
            removed_count > LEVEL || 81 - cursor >= LEVEL + 1 - removed_count,
            queue_ok(fields_queue@),
            forall|p: int|
                cursor <= p < 81 ==> #[trigger] cells_of(grid_cells(*old(values)))[fields_queue@[p] as int] != 0,
        ensures
            grid_ok(grid_cells(*final(values))),
            final(self).values == old(self).values,
            final(self).solved == old(self).solved,
            removed_count <= LEVEL || cursor == 81 ==> result is Some,
            match result {
                Some(sol) => {
                    &&& grid_cells(sol) == grid_cells(*final(values))
                    &&& exists|p: int|
                        #[trigger] accepted_leaf(
                            old(self)@.masks,
                            cells_of(grid_cells(*old(values))),
                            cells_of(grid_cells(sol)),
                            fields_queue@,
                            cursor as int,
                            p,
                            removed_count as int,
                        ) && final(self)@.masks == thinned_masks(
                            old(self)@.masks,
                            cells_of(grid_cells(*old(values))),
                            cells_of(grid_cells(sol)),
                            fields_queue@,
                            cursor as int,
                            p,
                        ) && fill_count_capped(final(self)@.masks, cells_of(grid_cells(sol)), p) <= 1
                    &&& forall|h: Seq<u8>, p: int|
                        #[trigger] accepted_leaf(
                            old(self)@.masks,
                            cells_of(grid_cells(*old(values))),
                            h,
                            fields_queue@,
                            cursor as int,
                            p,
                            removed_count as int,
                        ) ==> !searched_before(h, cells_of(grid_cells(sol)), fields_queue@, cursor as int)
                    &&& consistent(old(self)@.masks, cells_of(grid_cells(*old(values))))
                        && conflict_free(cells_of(grid_cells(*old(values)))) ==> consistent(
                        final(self)@.masks,
                        cells_of(grid_cells(sol)),
                    ) && conflict_free(cells_of(grid_cells(sol)))
                },
                None => {
                    &&& grid_cells(*final(values)) == grid_cells(*old(values))
                    &&& final(self)@.masks == old(self)@.masks
                    &&& forall|h: Seq<u8>, p: int|
                        !#[trigger] accepted_leaf(
                            old(self)@.masks,
                            cells_of(grid_cells(*old(values))),
                            h,
                            fields_queue@,
                            cursor as int,
                            p,
                            removed_count as int,
                        )
                },
            },
        decreases 81 - cursor,
    {
        let ghost map0 = grid_cells(*values);
        let ghost g0 = cells_of(map0);
        let ghost m = self@.masks;
        let ghost c = cursor as int;
        let ghost r = removed_count as int;
        let ghost q = fields_queue@;
        let ghost clean = consistent(m, g0) && conflict_free(g0);
        if removed_count > LEVEL {
            let count = self.multiple_solutions_(values, cursor);
            proof {
                assert forall|h: Seq<u8>, p: int| #[trigger] removal_leaf(g0, h, q, c, p, r) implies p == c && h == g0 by {
                    lemma_leaf_done(g0, h, q, c, p);
                }
                assert(thinned_masks(m, g0, g0, q, c, c) == m);
                assert(zeroed_count(g0, q, c, c) == 0);
                assert(removal_leaf(g0, g0, q, c, c, r));
                if c == 81 {
                    assert forall|h: Seq<u8>| is_fill(m, g0, c, h) == (h == g0) by {
                        lemma_fill_end(m, g0, h);
                    }
                    assert(is_fill(m, g0, c, g0));
                }
            }
            if count > 1 {
                proof {
                    assert forall|h: Seq<u8>, p: int| !#[trigger] accepted_leaf(m, g0, h, q, c, p, r) by {
                        if removal_leaf(g0, h, q, c, p, r) {
                            assert(p == c && h == g0);
                        }
                    }
                }
                return None;
            }
            let sol = grid_clone(values);
            proof {
                assert(cells_of(grid_cells(sol)) == g0);
                assert(accepted_leaf(m, g0, g0, q, c, c, r));
                assert forall|h: Seq<u8>, p: int| #[trigger] accepted_leaf(m, g0, h, q, c, p, r) implies !searched_before(h, g0, q, c) by {
                    assert(h == g0);
                }
            }
            return Some(sol);
        }
        let cell = fields_queue[cursor];
        let row = cell / 9;
        let col = cell % 9;
        let ghost k = cell as int;
        proof {
            lemma_cell_index(row as int, col as int);
            assert(cell_index(row as int, col as int) == k);
            assert(grid_domain(9, 9).contains((row, col)));
        }
        let quad = (row / 3) * 3 + col / 3;
        let mov = grid_get(values, row, col);
        let ghost v = mov as int;
        proof {
            assert(g0[q[c] as int] != 0);
            assert(mov == g0[k]);
            assert(g0[k] <= 9);
        }
        let mov_zero_based = (mov - 1) as usize;
        let mov_bin = bit_of(mov_zero_based);
        let mov_bin_inv = !mov_bin;
        grid_set(values, row, col, 0);
        self.poss_rows[row] = self.poss_rows[row] | mov_bin;
        self.poss_cols[col] = self.poss_cols[col] | mov_bin;
        self.poss_quads[quad] = self.poss_quads[quad] | mov_bin;
        let ghost m1 = m.unplace(k, v);
        let ghost g1 = g0.update(k, 0);
        let ghost m2 = m1.place(k, v);
        proof {
            assert(self@.masks.rows =~= m1.rows);
            assert(self@.masks.cols =~= m1.cols);
            assert(self@.masks.quads =~= m1.quads);
            lemma_cells_of_insert(map0, row, col, 0);
            assert forall|p: int| c + 1 <= p < 81 implies #[trigger] g1[q[p] as int] != 0 by {
                assert(q[p] != q[c]);
                assert(g0[q[p] as int] != 0);
            }
            if clean {
                lemma_remove_keeps_consistency(m, g0, k);
            }
            // the paths that empty the cell at `c` and those that keep it
            assert forall|h: Seq<u8>, p: int| #[trigger] accepted_leaf(m, g0, h, q, c, p, r) && h[k] == 0
                implies accepted_leaf(m1, g1, h, q, c + 1, p, r + 1) by {
                lemma_leaf_remove(g0, h, q, c, p, r);
                lemma_thinned_masks_step(m, g0, h, q, c, p);
            }
            assert forall|h: Seq<u8>, p: int| #[trigger] accepted_leaf(m, g0, h, q, c, p, r) && h[k] != 0
                implies accepted_leaf(m2, g0, h, q, c + 1, p, r) by {
                lemma_leaf_keep(g0, h, q, c, p, r);
                lemma_thinned_masks_step(m, g0, h, q, c, p);
            }
        }
        let solution = self.generate_(values, fields_queue, cursor + 1, removed_count + 1);
        if solution.is_some() {
            proof {
                let s = cells_of(grid_cells(solution.unwrap()));
                let p = choose|p: int|
                    #[trigger] accepted_leaf(m1, g1, s, q, c + 1, p, r + 1) && self@.masks
                        == thinned_masks(m1, g1, s, q, c + 1, p);
                lemma_leaf_remove(g0, s, q, c, p, r);
                lemma_thinned_masks_step(m, g0, s, q, c, p);
                assert(accepted_leaf(m, g0, s, q, c, p, r));
                assert forall|h: Seq<u8>, p2: int| #[trigger] accepted_leaf(m, g0, h, q, c, p2, r)
                    implies !searched_before(h, s, q, c) by {
                    if searched_before(h, s, q, c) {
                        lemma_searched_before_step(h, s, q, c);
                        assert(accepted_leaf(m1, g1, h, q, c + 1, p2, r + 1));
                    }
                }
            }
            return solution;
        }
        self.poss_rows[row] = self.poss_rows[row] & mov_bin_inv;
        self.poss_cols[col] = self.poss_cols[col] & mov_bin_inv;
        self.poss_quads[quad] = self.poss_quads[quad] & mov_bin_inv;
        grid_set(values, row, col, mov);
        proof {
            assert(self@.masks.rows =~= m2.rows);
            assert(self@.masks.cols =~= m2.cols);
            assert(self@.masks.quads =~= m2.quads);
            assert(grid_cells(*values) =~= map0);
            if clean {
                lemma_unplace_then_place(m, g0, k);
            }
        }
        let result = self.generate_(values, fields_queue, cursor + 1, removed_count);
        proof {
            let s = cells_of(grid_cells(result.unwrap()));
            let p = choose|p: int|
                #[trigger] accepted_leaf(m2, g0, s, q, c + 1, p, r) && self@.masks
                    == thinned_masks(m2, g0, s, q, c + 1, p);
            lemma_leaf_keep(g0, s, q, c, p, r);
            lemma_thinned_masks_step(m, g0, s, q, c, p);
            assert(accepted_leaf(m, g0, s, q, c, p, r));
            assert forall|h: Seq<u8>, p2: int| #[trigger] accepted_leaf(m, g0, h, q, c, p2, r)
                implies !searched_before(h, s, q, c) by {
                if searched_before(h, s, q, c) {
                    lemma_searched_before_step(h, s, q, c);
                    if h[k] == 0 {
                        assert(accepted_leaf(m1, g1, h, q, c + 1, p2, r + 1));
                    } else {
                        assert(accepted_leaf(m2, g0, h, q, c + 1, p2, r));
                    }
                }
            }
        }
        result
    }

    /// Fills every empty cell with the lexicographically first completion of
    /// the board and marks it solved. The masks end with the written digits
    /// disallowed in their units.
    pub fn solve(&mut self)
        requires
            old(self).wf(),
            has_fill(old(self)@.masks, old(self)@.cells, 0),
        ensures
            final(self).wf(),
            is_first_fill(old(self)@.masks, old(self)@.cells, 0, final(self)@.cells),
            final(self)@.masks == placed_from(
                old(self)@.masks,
                old(self)@.cells,
                0,
                final(self)@.cells,
            ),
            final(self)@.solved,
    {
        let mut work = grid_clone(&self.values);
        let solution = self.find_solution_(&mut work, 0);
        match solution {
            Some(grid) => {
                self.values = grid;
                self.solved = true;
            },
            None => {
                proof {
                    assert(false);
                }
            },
        }
    }

    /// How many completions the board has, counted up to two: 0, 1, or 2 for
    /// "more than one". The board is left as it was.
    pub fn count_solutions(&mut self) -> (count: u8)
        requires
            old(self).wf(),
        ensures
            final(self).wf(),
            final(self)@ == old(self)@,
            count == fill_count_capped(old(self)@.masks, old(self)@.cells, 0),
    {
        let mut work = grid_clone(&self.values);
        self.multiple_solutions_(&mut work, 0)
    }

    /// Generates a puzzle: solves the board, then empties `LEVEL + 1` cells of
    /// the solution, trying them in a random order.
    pub fn generate(&mut self)
        requires
            old(self).wf(),
            has_fill(old(self)@.masks, old(self)@.cells, 0),
        ensures
            final(self).wf(),
            exists|q: Seq<usize>| queue_ok(q) && #[trigger] generate_outcome(old(self)@, final(self)@, q),
    {
        let mut cursor_random_mask: [usize; 81] = [0; 81];
        let mut i: usize = 0;
        while i < 81
            invariant
                0 <= i <= 81,
                forall|j: int| 0 <= j < i ==> #[trigger] cursor_random_mask@[j] == j,
            decreases 81 - i,
        {
            cursor_random_mask[i] = i;
            i = i + 1;
        }
        let ghost ordered = cursor_random_mask@;
        shuffle_positions(&mut cursor_random_mask);
        proof {
            let q = cursor_random_mask@;
            let perm = choose|perm: Seq<int>| is_permutation_witness(ordered, q, perm);
            assert forall|p: int| 0 <= p < 81 implies #[trigger] q[p] < 81 by {
                assert(q[p] == ordered[perm[p]]);
            }
            assert forall|p: int, r: int| 0 <= p < r < 81 implies #[trigger] q[p] != #[trigger] q[r] by {
                assert(q[p] == ordered[perm[p]]);
                assert(q[r] == ordered[perm[r]]);
            }
        }
        self.generate_from_order(cursor_random_mask)
    }

    /// Generates a puzzle with the cells tried in the order `order` lists them:
    /// solves the board to its first completion, then thins the solution out
    /// as `generate_` does, which always finds a puzzle.
    pub fn generate_from_order(&mut self, order: [usize; 81])
        requires
            old(self).wf(),
            has_fill(old(self)@.masks, old(self)@.cells, 0),
            queue_ok(order@),
        ensures
            final(self).wf(),
            generate_outcome(old(self)@, final(self)@, order@),
    {
        let ghost before = self@;
        let mut work = grid_clone(&self.values);
        let found = self.find_solution_(&mut work, 0);
        let mut solution = match found {
            Some(grid) => grid,
            None => {
                proof {
                    assert(false);
                }
                work
            },
        };
        let ghost sol = cells_of(grid_cells(solution));
        let ghost solved_masks = self@.masks;
        proof {
            assert forall|p: int| 0 <= p < 81 implies #[trigger] sol[order@[p] as int] != 0 by {
                let k = order@[p] as int;
                if before.cells[k] != 0 {
                    assert(sol[k] == before.cells[k]);
                }
            }
            if consistent(before.masks, before.cells) && conflict_free(before.cells) {
                law_placed_masks_consistent(before.masks, before.cells, sol);
            }
        }
        let generated = self.generate_(&mut solution, order, 0, 0);
        match generated {
            Some(grid) => {
                self.values = grid;
                proof {
                    let p = choose|p: int|
                        #[trigger] accepted_leaf(solved_masks, sol, self@.cells, order@, 0, p, 0)
                            && self@.masks == thinned_masks(solved_masks, sol, self@.cells, order@, 0, p);
                    assert(generate_outcome(before, self@, order@));
                }
            },
            None => {
                proof {
                    assert(false);
                }
            },
        }
    }

    /// Advances the cell at `row`, `col` to its next value in the cycle empty,
    /// 1, 2, ..., 9, empty: the cell is emptied, then the next digit, if any,
    /// is written.
    pub fn cycle_value(&mut self, row: usize, col: usize)
        requires
            old(self).wf(),
            row < 9,
            col < 9,
        ensures
            final(self).wf(),
            ({
                let k = cell_index(row as int, col as int);
                let next = ((old(self)@.cells[k] + 1) % 10) as u8;
                let cleared = after_set(old(self)@, k, 0);
                final(self)@ == if next != 0 {
                    after_set(cleared, k, next)
                } else {
                    cleared
                }
            }),
            final(self)@.cells == old(self)@.cells.update(
                cell_index(row as int, col as int),
                ((old(self)@.cells[cell_index(row as int, col as int)] + 1) % 10) as u8,
            ),
    {
        proof {
            self.lemma_wf_cells();
            lemma_cell_index(row as int, col as int);
            let k = cell_index(row as int, col as int);
            law_set_value_stores(self@, k, 0);
            law_set_value_stores(after_set(self@, k, 0), k, ((self@.cells[k] + 1) % 10) as u8);
            assert(self@.cells.update(k, 0).update(k, ((self@.cells[k] + 1) % 10) as u8) =~= self@.cells.update(k, ((self@.cells[k] + 1) % 10) as u8));
        }
        let v = (self.value(row, col) + 1) % 10;
        self.set_value(row, col, 0);
        if v != 0 {
            self.set_value(row, col, v);
        }
    }

    /// Stores `v` in the cell at `row`, `col` of the board's own grid.
    fn write_cell(&mut self, row: usize, col: usize, v: u8)
        requires
            old(self).wf(),
            row < 9,
            col < 9,
            v <= 9,
        ensures
            final(self).wf(),
            final(self)@ == (PlayfieldView {
                cells: old(self)@.cells.update(cell_index(row as int, col as int), v),
                ..old(self)@
            }),
    {
        proof {
            lemma_cell_index(row as int, col as int);
            assert(grid_domain(9, 9).contains((row, col)));
        }
        grid_set(&mut self.values, row, col, v);
        proof {
            let k = cell_index(row as int, col as int);
            assert(grid_cells(self.values).dom() =~= grid_domain(9, 9));
            assert(self@.cells =~= old(self)@.cells.update(k, v)) by {
                assert forall|j: int| 0 <= j < 81 implies self@.cells[j] == old(self)@.cells.update(k, v)[j] by {
                    if j != k {
                        assert(((j / 9) as usize, (j % 9) as usize) != (row, col));
                    }
                }
            }
        }
    }
}

} // verus!
