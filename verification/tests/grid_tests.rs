use nonogram::solver::{Nonogram, SolveError};

fn checkerboard_numbers() -> Vec<Vec<usize>> {
    // 5x5; the five column clues, then the five row clues
    vec![
        vec![5, 5],
        vec![5],
        vec![1, 1, 1],
        vec![5],
        vec![1, 1, 1],
        vec![5],
        vec![5],
        vec![1, 1, 1],
        vec![5],
        vec![1, 1, 1],
        vec![5],
    ]
}

fn rle_of(merge: &[bool]) -> Vec<usize> {
    let mut encode = Vec::new();
    let mut last = 0usize;
    for &m in merge {
        if m {
            last += 1;
        } else {
            if last != 0 {
                encode.push(last);
            }
            last = 0;
        }
    }
    if last != 0 {
        encode.push(last);
    }
    encode
}

#[test]
fn new_grid_is_empty() {
    let g = Nonogram::new();
    assert_eq!(g.width, 0);
    assert_eq!(g.height, 0);
    assert!(g.matrix.is_empty());
}

#[test]
fn read_from_builds_the_grid() {
    let numbers = checkerboard_numbers();
    let g = Nonogram::read_from(&numbers).unwrap();
    assert_eq!(g.width, 5);
    assert_eq!(g.height, 5);
    assert_eq!(g.input_cols[1], vec![1, 1, 1]);
    assert_eq!(g.input_rows[0], vec![5]);
    for c in 0..5 {
        for r in 0..5 {
            assert_eq!(g.get_cell(c, r), None);
        }
    }
}

#[test]
fn read_from_rejects_a_zero_run() {
    let numbers = vec![vec![1, 1], vec![0], vec![1]];
    assert!(matches!(
        Nonogram::read_from(&numbers),
        Err(SolveError::MalformedClue)
    ));
}

#[test]
fn read_from_rejects_a_clue_that_cannot_fit() {
    let numbers = vec![vec![1, 1], vec![2], vec![1]];
    assert!(matches!(
        Nonogram::read_from(&numbers),
        Err(SolveError::InfeasibleClue)
    ));
}

#[test]
fn checkerboard_converges_to_a_fully_decided_grid() {
    let numbers = checkerboard_numbers();
    let mut g = Nonogram::read_from(&numbers).unwrap();
    g.solve().unwrap();
    let expected_row = |r: usize| -> Vec<bool> {
        if r % 2 == 0 {
            vec![true, true, true, true, true]
        } else {
            vec![true, false, true, false, true]
        }
    };
    for r in 0..5 {
        for c in 0..5 {
            assert_eq!(g.get_cell(c, r), Some(expected_row(r)[c]));
        }
    }
}

#[test]
fn solved_rows_encode_back_to_their_clues() {
    let numbers = checkerboard_numbers();
    let mut g = Nonogram::read_from(&numbers).unwrap();
    g.solve().unwrap();
    for r in 0..5 {
        let filled: Vec<bool> = (0..5).map(|c| g.get_cell(c, r) == Some(true)).collect();
        assert_eq!(rle_of(&filled), g.input_rows[r]);
    }
    for c in 0..5 {
        let filled: Vec<bool> = (0..5).map(|r| g.get_cell(c, r) == Some(true)).collect();
        assert_eq!(rle_of(&filled), g.input_cols[c]);
    }
}

#[test]
fn crossing_full_and_sparse_lines_is_a_contradiction() {
    // columns [5] force three filled cells into every row, but the odd
    // row clues [1, 1] admit only two runs: the solve must surface the
    // inconsistency instead of inventing a grid
    let numbers = vec![
        vec![5, 5],
        vec![5],
        vec![1, 1],
        vec![5],
        vec![1, 1],
        vec![5],
        vec![5],
        vec![1, 1],
        vec![5],
        vec![1, 1],
        vec![5],
    ];
    let mut g = Nonogram::read_from(&numbers).unwrap();
    assert_eq!(g.solve(), Err(SolveError::Contradiction));
}

#[test]
fn pre_seeded_impossible_cell_fails_the_solve() {
    let numbers = checkerboard_numbers();
    let mut g = Nonogram::read_from(&numbers).unwrap();
    // row 1 can never fill column 1
    g.matrix[1][1] = Some(true);
    assert_eq!(g.solve(), Err(SolveError::Contradiction));
}

#[test]
fn suggest_col_reports_newly_decided_rows() {
    let numbers = checkerboard_numbers();
    let mut g = Nonogram::read_from(&numbers).unwrap();
    let mut queue_rows = Vec::new();
    let count = g.suggest_col(0, &mut queue_rows).unwrap();
    assert_eq!(count, 1);
    assert_eq!(queue_rows, vec![0, 1, 2, 3, 4]);
    for r in 0..5 {
        assert_eq!(g.get_cell(0, r), Some(true));
    }
    assert_eq!(g.get_cell(1, 0), None);
}

#[test]
fn suggest_row_reports_newly_decided_cols() {
    let numbers = checkerboard_numbers();
    let mut g = Nonogram::read_from(&numbers).unwrap();
    let mut queue_cols = Vec::new();
    let count = g.suggest_row(1, &mut queue_cols).unwrap();
    assert_eq!(count, 1);
    assert_eq!(queue_cols, vec![0, 1, 2, 3, 4]);
    for c in 0..5 {
        assert_eq!(g.get_cell(c, 1), Some(c % 2 == 0));
    }
}

#[test]
fn one_cell_puzzle_solves_to_filled() {
    let numbers = vec![vec![1, 1], vec![1], vec![1]];
    let mut g = Nonogram::read_from(&numbers).unwrap();
    g.solve().unwrap();
    assert_eq!(g.get_cell(0, 0), Some(true));
}

#[test]
fn empty_clue_line_comes_out_empty() {
    // 2x2: the first column full, the second with no runs at all
    let numbers = vec![vec![2, 2], vec![2], vec![], vec![1], vec![1]];
    let mut g = Nonogram::read_from(&numbers).unwrap();
    g.solve().unwrap();
    for r in 0..2 {
        assert_eq!(g.get_cell(0, r), Some(true));
        assert_eq!(g.get_cell(1, r), Some(false));
    }
}

#[test]
fn decided_cells_only_grow_during_a_solve() {
    // resolve lines one at a time and watch the decided count
    let numbers = checkerboard_numbers();
    let mut g = Nonogram::read_from(&numbers).unwrap();
    let decided = |g: &Nonogram| -> usize {
        let mut n = 0;
        for c in 0..5 {
            for r in 0..5 {
                if g.get_cell(c, r).is_some() {
                    n += 1;
                }
            }
        }
        n
    };
    let mut last = decided(&g);
    let mut sink = Vec::new();
    for c in 0..5 {
        g.suggest_col(c, &mut sink).unwrap();
        let now = decided(&g);
        assert!(now >= last);
        last = now;
    }
    for r in 0..5 {
        g.suggest_row(r, &mut sink).unwrap();
        let now = decided(&g);
        assert!(now >= last);
        last = now;
    }
}
