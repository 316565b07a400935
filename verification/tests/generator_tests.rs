use nonogram_solver::cell::Cell;
use nonogram_solver::generator::{generate_line_possibilities, required_length};

const E: Cell = Cell::Empty;
const F: Cell = Cell::Filled;

/// The lengths of the maximal runs of filled cells, left to right.
fn runs(line: &[Cell]) -> Vec<usize> {
    let mut out = Vec::new();
    let mut open = 0;
    for c in line {
        if *c == F {
            open += 1;
        } else if open > 0 {
            out.push(open);
            open = 0;
        }
    }
    if open > 0 {
        out.push(open);
    }
    out
}

/// n choose k.
fn binomial(n: usize, k: usize) -> usize {
    if k > n {
        return 0;
    }
    let mut r = 1;
    for i in 0..k {
        r = r * (n - i) / (i + 1);
    }
    r
}

#[test]
fn no_blocks_give_the_empty_line() {
    for n in 0..6 {
        assert_eq!(generate_line_possibilities(&vec![], n), vec![vec![E; n]]);
    }
}

#[test]
fn blocks_that_do_not_fit_give_no_line() {
    assert_eq!(generate_line_possibilities(&vec![1], 0), Vec::<Vec<Cell>>::new());
    assert_eq!(generate_line_possibilities(&vec![3], 2), Vec::<Vec<Cell>>::new());
    assert_eq!(generate_line_possibilities(&vec![2, 1], 3), Vec::<Vec<Cell>>::new());
    assert_eq!(generate_line_possibilities(&vec![1, 1, 1], 4), Vec::<Vec<Cell>>::new());
}

#[test]
fn blocks_too_long_for_any_line_give_no_line() {
    assert_eq!(
        generate_line_possibilities(&vec![usize::MAX, usize::MAX], 10),
        Vec::<Vec<Cell>>::new()
    );
    assert_eq!(generate_line_possibilities(&vec![usize::MAX, 1], 10), Vec::<Vec<Cell>>::new());
}

#[test]
fn a_block_that_fills_the_line() {
    assert_eq!(generate_line_possibilities(&vec![1], 1), vec![vec![F]]);
    assert_eq!(generate_line_possibilities(&vec![3], 3), vec![vec![F, F, F]]);
    assert_eq!(generate_line_possibilities(&vec![1, 1], 3), vec![vec![F, E, F]]);
}

#[test]
fn one_block_slides_from_left_to_right() {
    assert_eq!(
        generate_line_possibilities(&vec![2], 4),
        vec![vec![F, F, E, E], vec![E, F, F, E], vec![E, E, F, F]]
    );
}

#[test]
fn two_blocks_in_five_cells() {
    assert_eq!(
        generate_line_possibilities(&vec![2, 1], 5),
        vec![vec![F, F, E, F, E], vec![F, F, E, E, F], vec![E, F, F, E, F]]
    );
}

#[test]
fn three_blocks_in_six_cells() {
    assert_eq!(
        generate_line_possibilities(&vec![1, 1, 1], 6),
        vec![
            vec![F, E, F, E, F, E],
            vec![F, E, F, E, E, F],
            vec![F, E, E, F, E, F],
            vec![E, F, E, F, E, F],
        ]
    );
}

#[test]
fn every_possibility_has_the_line_size_and_the_runs() {
    let cases: Vec<(Vec<usize>, usize)> = vec![
        (vec![1], 5),
        (vec![2, 1], 7),
        (vec![1, 2, 3], 10),
        (vec![3, 3], 7),
        (vec![1, 1, 1, 1], 9),
        (vec![4], 4),
    ];
    for (blocks, n) in cases {
        let lines = generate_line_possibilities(&blocks, n);
        assert!(!lines.is_empty());
        for line in &lines {
            assert_eq!(line.len(), n);
            assert_eq!(runs(line), blocks);
        }
    }
}

#[test]
fn the_possibilities_are_complete_and_distinct() {
    // k blocks of total length t have C(n - t + 1, k) places in n cells.
    let cases: Vec<(Vec<usize>, usize)> =
        vec![(vec![1], 5), (vec![2, 1], 7), (vec![1, 2, 3], 10), (vec![1, 1, 1, 1], 9)];
    for (blocks, n) in cases {
        let lines = generate_line_possibilities(&blocks, n);
        let total: usize = blocks.iter().sum();
        assert_eq!(lines.len(), binomial(n - total + 1, blocks.len()));
        for i in 0..lines.len() {
            for j in 0..i {
                assert_ne!(lines[i], lines[j]);
            }
        }
    }
}

#[test]
fn possibilities_come_leftmost_first() {
    let lines = generate_line_possibilities(&vec![1, 2], 8);
    for pair in lines.windows(2) {
        let k = (0..8).find(|&k| pair[0][k] != pair[1][k]).unwrap();
        assert_eq!(pair[0][k], F);
        assert_eq!(pair[1][k], E);
    }
}

#[test]
fn a_block_of_no_cells_is_laid_at_every_start() {
    assert_eq!(generate_line_possibilities(&vec![0], 2), vec![vec![E, E]; 3]);
}

#[test]
fn required_length_counts_blocks_and_gaps() {
    assert_eq!(required_length(&vec![]), Some(0));
    assert_eq!(required_length(&vec![3]), Some(3));
    assert_eq!(required_length(&vec![2, 1]), Some(4));
    assert_eq!(required_length(&vec![1, 2, 3]), Some(8));
    assert_eq!(required_length(&vec![0]), Some(0));
}

#[test]
fn required_length_beyond_usize_is_none() {
    assert_eq!(required_length(&vec![usize::MAX]), Some(usize::MAX));
    assert_eq!(required_length(&vec![usize::MAX, 0]), None);
    assert_eq!(required_length(&vec![usize::MAX - 1, 1]), None);
    assert_eq!(required_length(&vec![1, usize::MAX]), None);
}
