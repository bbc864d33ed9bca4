use sudoku::playfield::Playfield;

const FIRST_GRID: [[u8; 9]; 9] = [
    [1, 2, 3, 4, 5, 6, 7, 8, 9],
    [4, 5, 6, 7, 8, 9, 1, 2, 3],
    [7, 8, 9, 1, 2, 3, 4, 5, 6],
    [2, 1, 4, 3, 6, 5, 8, 9, 7],
    [3, 6, 5, 8, 9, 7, 2, 1, 4],
    [8, 9, 7, 2, 1, 4, 3, 6, 5],
    [5, 3, 1, 6, 4, 2, 9, 7, 8],
    [6, 4, 2, 9, 7, 8, 5, 3, 1],
    [9, 7, 8, 5, 3, 1, 6, 4, 2],
];

fn grid(p: &Playfield) -> [[u8; 9]; 9] {
    let mut g = [[0u8; 9]; 9];
    for r in 0..9 {
        for c in 0..9 {
            g[r][c] = p.value(r, c);
        }
    }
    g
}

fn is_valid_solution(g: &[[u8; 9]; 9]) -> bool {
    for i in 0..9 {
        let mut row = [false; 10];
        let mut col = [false; 10];
        let mut quad = [false; 10];
        for j in 0..9 {
            let a = g[i][j] as usize;
            let b = g[j][i] as usize;
            let c = g[(i / 3) * 3 + j / 3][(i % 3) * 3 + j % 3] as usize;
            if a == 0 || b == 0 || c == 0 || row[a] || col[b] || quad[c] {
                return false;
            }
            row[a] = true;
            col[b] = true;
            quad[c] = true;
        }
    }
    true
}

fn board_from(givens: &[(usize, usize, u8)]) -> Playfield {
    let mut p = Playfield::new();
    for &(r, c, v) in givens {
        p.set_value(r, c, v);
    }
    p
}

#[test]
fn test_new_board_is_empty() {
    let p = Playfield::new();
    assert_eq!(grid(&p), [[0u8; 9]; 9]);
}

#[test]
fn test_set_value_writes_and_empties() {
    let mut p = Playfield::new();
    p.set_value(4, 7, 5);
    assert_eq!(p.value(4, 7), 5);
    p.set_value(4, 7, 5);
    assert_eq!(p.value(4, 7), 5);
    p.set_value(4, 7, 0);
    assert_eq!(p.value(4, 7), 0);
    assert_eq!(grid(&p), [[0u8; 9]; 9]);
}

#[test]
fn test_solution_counter_empty() {
    let mut p = Playfield::new();
    assert_eq!(p.count_solutions(), 2);
}

#[test]
fn test_solution_counter_full() {
    let mut p = Playfield::new();
    p.solve();
    assert_eq!(p.count_solutions(), 1);
}

#[test]
fn test_solution_counter_partial_2() {
    let mut p = board_from(&[
        (0, 6, 7), (0, 8, 9), (1, 6, 1), (2, 3, 1), (2, 4, 2), (3, 4, 6), (4, 2, 5),
        (4, 3, 8), (4, 6, 2), (4, 8, 4), (5, 1, 9), (5, 2, 7), (5, 3, 2), (5, 7, 6),
        (5, 8, 5), (6, 0, 5), (6, 2, 1), (6, 5, 2),
    ]);
    assert_eq!(p.count_solutions(), 2);
}

// These givens leave more than one completion (an independent brute-force
// count finds several), so the counter reports 2.
#[test]
fn test_solution_counter_partial_3() {
    let mut p = board_from(&[
        (0, 2, 3), (0, 4, 5), (0, 5, 6), (0, 7, 8), (0, 8, 9), (1, 0, 4), (1, 3, 7),
        (1, 4, 8), (1, 5, 9), (1, 6, 1), (1, 7, 2), (2, 2, 9), (2, 6, 4), (2, 8, 6),
        (3, 7, 9), (4, 0, 3), (4, 1, 6), (4, 5, 7), (4, 6, 2), (5, 2, 7), (5, 3, 2),
        (5, 4, 1), (5, 6, 3), (5, 7, 6), (6, 1, 3), (6, 4, 4), (6, 5, 2), (6, 8, 8),
        (7, 8, 1), (8, 8, 2),
    ]);
    assert_eq!(p.count_solutions(), 2);
}

#[test]
fn test_count_without_completion_is_zero() {
    // digit 1 fills the whole first row's candidates of cell (0, 0) away
    let mut p = board_from(&[
        (0, 1, 1), (0, 2, 2), (1, 0, 3), (2, 0, 4), (0, 3, 5), (0, 4, 6), (0, 5, 7),
        (0, 6, 8), (3, 0, 9),
    ]);
    assert_eq!(p.count_solutions(), 0);
}

#[test]
fn test_count_leaves_board_unchanged() {
    let givens = [(0, 0, 5), (3, 4, 2), (8, 8, 9)];
    let mut p = board_from(&givens);
    let before = grid(&p);
    assert_eq!(p.count_solutions(), 2);
    assert_eq!(grid(&p), before);
    p.solve();
    let mut q = board_from(&givens);
    q.solve();
    assert_eq!(grid(&p), grid(&q));
}

#[test]
fn test_solve_empty_board_gives_first_grid() {
    let mut p = Playfield::new();
    p.solve();
    assert_eq!(grid(&p), FIRST_GRID);
    assert!(is_valid_solution(&grid(&p)));
}

#[test]
fn test_solve_keeps_givens() {
    let givens = [(0, 0, 9), (1, 4, 3), (4, 4, 5), (7, 2, 1), (8, 8, 4), (2, 6, 7)];
    let mut p = board_from(&givens);
    p.solve();
    let g = grid(&p);
    assert!(is_valid_solution(&g));
    for &(r, c, v) in &givens {
        assert_eq!(g[r][c], v);
    }
    assert_eq!(p.count_solutions(), 1);
}

#[test]
fn test_set_value_disallows_digit_in_units() {
    let mut p = board_from(&[(0, 1, 1)]);
    p.solve();
    let g = grid(&p);
    assert!(is_valid_solution(&g));
    assert_eq!(g[0][1], 1);
    assert_eq!(g[0][0], 2);
}

#[test]
fn test_set_then_clear_restores_board() {
    let mut p = board_from(&[(2, 2, 4)]);
    p.set_value(5, 5, 7);
    p.set_value(5, 5, 0);
    p.solve();
    let mut q = board_from(&[(2, 2, 4)]);
    q.solve();
    assert_eq!(grid(&p), grid(&q));
}

#[test]
fn test_cycle_value_goes_round() {
    let mut p = Playfield::new();
    for expected in 1..=9u8 {
        p.cycle_value(3, 3);
        assert_eq!(p.value(3, 3), expected);
    }
    p.cycle_value(3, 3);
    assert_eq!(p.value(3, 3), 0);
    p.solve();
    assert_eq!(grid(&p), FIRST_GRID);
}

#[test]
fn test_generate_from_identity_order() {
    let mut p = Playfield::new();
    let mut order = [0usize; 81];
    for (i, slot) in order.iter_mut().enumerate() {
        *slot = i;
    }
    p.generate_from_order(order);
    let g = grid(&p);
    for k in 0..81 {
        let (r, c) = (k / 9, k % 9);
        if k <= 50 {
            assert_eq!(g[r][c], 0);
        } else {
            assert_eq!(g[r][c], FIRST_GRID[r][c]);
        }
    }
}

#[test]
fn test_generate_from_reversed_order() {
    let mut p = Playfield::new();
    let mut order = [0usize; 81];
    for (i, slot) in order.iter_mut().enumerate() {
        *slot = 80 - i;
    }
    p.generate_from_order(order);
    let g = grid(&p);
    let zeros = g.iter().flatten().filter(|&&v| v == 0).count();
    assert_eq!(zeros, 51);
    for k in 0..81 {
        let (r, c) = (k / 9, k % 9);
        if g[r][c] != 0 {
            assert_eq!(g[r][c], FIRST_GRID[r][c]);
        }
    }
}

#[test]
fn test_generate_empties_level_plus_one_cells() {
    let mut p = Playfield::new();
    p.generate();
    let g = grid(&p);
    let zeros = g.iter().flatten().filter(|&&v| v == 0).count();
    assert_eq!(zeros, 51);
    for r in 0..9 {
        for c in 0..9 {
            if g[r][c] != 0 {
                assert_eq!(g[r][c], FIRST_GRID[r][c]);
            }
        }
    }
    p.solve();
    assert!(is_valid_solution(&grid(&p)));
}

#[test]
fn test_generate_twice_gives_random_orders() {
    // two generated puzzles empty the same number of cells; the shuffle only
    // decides which ones
    let mut a = Playfield::new();
    let mut b = Playfield::new();
    a.generate();
    b.generate();
    let za = grid(&a).iter().flatten().filter(|&&v| v == 0).count();
    let zb = grid(&b).iter().flatten().filter(|&&v| v == 0).count();
    assert_eq!(za, zb);
}

#[test]
fn test_generate_uses_a_shuffled_order() {
    // with the cells tried in board order the first 51 cells are emptied; a
    // shuffled order almost surely empties other ones
    let mut ordered = Playfield::new();
    let mut order = [0usize; 81];
    for (i, slot) in order.iter_mut().enumerate() {
        *slot = i;
    }
    ordered.generate_from_order(order);
    let mut shuffled = Playfield::new();
    shuffled.generate();
    assert_ne!(grid(&shuffled), grid(&ordered));
}

#[test]
fn test_count_after_clearing_a_solved_cell() {
    let mut p = Playfield::new();
    p.solve();
    p.set_value(4, 4, 0);
    assert_eq!(p.count_solutions(), 1);
    p.solve();
    assert_eq!(grid(&p), FIRST_GRID);
}

#[test]
fn test_clearing_solved_cells_keeps_a_completion() {
    let mut p = Playfield::new();
    p.solve();
    for i in 0..20 {
        let k = (i * 37 + 5) % 81;
        p.set_value(k / 9, k % 9, 0);
        assert!(p.count_solutions() >= 1);
    }
    p.solve();
    assert!(is_valid_solution(&grid(&p)));
}
