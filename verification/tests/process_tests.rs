use nonogram_solver::cell::{Cell, CellPattern};
use nonogram_solver::config::Config;
use nonogram_solver::error::SolveError;
use nonogram_solver::generator::generate_line_possibilities;
use nonogram_solver::process::{
    filter_lines_possibilities, has_map_changed, iterate, line_matches, merge_line_possibilities,
    merge_rows_and_cols, solve_nonogram, transpose,
};
use nonogram_solver::puzzle_info::PuzzleInfo;

const E: Cell = Cell::Empty;
const F: Cell = Cell::Filled;
const PE: CellPattern = CellPattern::Empty;
const PU: CellPattern = CellPattern::Uncertain;
const PF: CellPattern = CellPattern::Filled;

fn config(process: bool) -> Config {
    Config::new(process, " ".to_string(), "?".to_string(), "X".to_string())
}

fn solve(
    width: usize,
    height: usize,
    rows: Vec<Vec<usize>>,
    cols: Vec<Vec<usize>>,
    process: bool,
) -> Result<(Vec<Vec<CellPattern>>, Vec<Vec<Vec<CellPattern>>>), SolveError> {
    let solution = solve_nonogram(PuzzleInfo::new(width, height, rows, cols), config(process))?;
    Ok((solution.grid, solution.snapshots))
}

#[test]
fn transpose_exchanges_rows_and_columns() {
    assert_eq!(transpose(&vec![vec![1, 2, 3], vec![4, 5, 6]]), Ok(vec![vec![1, 4], vec![2, 5], vec![3, 6]]));
    assert_eq!(transpose(&vec![vec![7]]), Ok(vec![vec![7]]));
}

#[test]
fn transpose_of_rows_without_cells_has_no_rows() {
    assert_eq!(transpose(&vec![Vec::<u8>::new(), Vec::new()]), Ok(Vec::<Vec<u8>>::new()));
}

#[test]
fn transpose_rejects_a_matrix_without_rows() {
    assert_eq!(transpose(&Vec::<Vec<u8>>::new()), Err(SolveError::ShapeError));
}

#[test]
fn transpose_rejects_rows_of_different_lengths() {
    assert_eq!(transpose(&vec![vec![1, 2], vec![3]]), Err(SolveError::ShapeError));
    assert_eq!(transpose(&vec![vec![1], vec![2, 3]]), Err(SolveError::ShapeError));
}

#[test]
fn transpose_twice_gives_the_matrix_back() {
    let m = vec![vec![PE, PU, PF], vec![PF, PF, PE]];
    assert_eq!(transpose(&transpose(&m).unwrap()), Ok(m));
}

#[test]
fn pattern_of_one_possibility_is_that_possibility() {
    assert_eq!(merge_line_possibilities(&vec![vec![F, E, F]]), Ok(vec![PF, PE, PF]));
}

#[test]
fn pattern_keeps_what_all_possibilities_agree_on() {
    let lines = vec![vec![F, F, E, E], vec![E, F, F, E], vec![E, F, E, E]];
    assert_eq!(merge_line_possibilities(&lines), Ok(vec![PU, PF, PU, PE]));
}

#[test]
fn pattern_of_a_block_longer_than_half_the_line() {
    let lines = generate_line_possibilities(&vec![3], 4);
    assert_eq!(merge_line_possibilities(&lines), Ok(vec![PU, PF, PF, PU]));
}

#[test]
fn pattern_of_lines_without_cells_is_empty() {
    assert_eq!(merge_line_possibilities(&vec![vec![], vec![]]), Ok(vec![]));
}

#[test]
fn pattern_of_no_possibility_is_a_reduction_error() {
    assert_eq!(merge_line_possibilities(&vec![]), Err(SolveError::ReductionError));
}

#[test]
fn pattern_of_ragged_lines_is_a_shape_error() {
    assert_eq!(merge_line_possibilities(&vec![vec![E, F], vec![E]]), Err(SolveError::ShapeError));
}

#[test]
fn cross_merge_takes_the_proven_side() {
    let rows = vec![vec![PF, PU], vec![PU, PU]];
    // One pattern for each column, top to bottom.
    let cols = vec![vec![PU, PE], vec![PF, PU]];
    assert_eq!(merge_rows_and_cols(&rows, &cols), Ok(vec![vec![PF, PF], vec![PE, PU]]));
}

#[test]
fn cross_merge_of_a_wide_grid() {
    let rows = vec![vec![PF, PU, PE]];
    let cols = vec![vec![PU], vec![PE], vec![PE]];
    assert_eq!(merge_rows_and_cols(&rows, &cols), Ok(vec![vec![PF, PE, PE]]));
}

#[test]
fn cross_merge_fails_on_a_contradiction() {
    assert_eq!(
        merge_rows_and_cols(&vec![vec![PF]], &vec![vec![PE]]),
        Err(SolveError::MergeConflict)
    );
    assert_eq!(
        merge_rows_and_cols(&vec![vec![PU, PE]], &vec![vec![PU], vec![PF]]),
        Err(SolveError::MergeConflict)
    );
}

#[test]
fn cross_merge_without_columns_is_a_shape_error() {
    assert_eq!(merge_rows_and_cols(&vec![vec![PF]], &vec![]), Err(SolveError::ShapeError));
    assert_eq!(
        merge_rows_and_cols(&vec![vec![PF, PF]], &vec![vec![PF, PF], vec![PF]]),
        Err(SolveError::ShapeError)
    );
}

#[test]
fn cross_merge_stops_at_the_shorter_side() {
    let rows = vec![vec![PF, PU, PU], vec![PU, PU, PU], vec![PE, PE, PE]];
    let cols = vec![vec![PU, PE], vec![PF, PU]];
    assert_eq!(merge_rows_and_cols(&rows, &cols), Ok(vec![vec![PF, PF], vec![PE, PU]]));
}

#[test]
fn line_matches_where_nothing_contradicts() {
    assert!(line_matches(&vec![F, E, F], &vec![PF, PU, PU]));
    assert!(line_matches(&vec![F, E, F], &vec![PF, PE, PF]));
    assert!(line_matches(&vec![F, E, F], &vec![PU, PU, PU]));
    assert!(line_matches(&vec![], &vec![]));
}

#[test]
fn line_does_not_match_a_contradicting_pattern() {
    assert!(!line_matches(&vec![F, E, F], &vec![PE, PU, PU]));
    assert!(!line_matches(&vec![F, E, F], &vec![PU, PF, PU]));
    assert!(!line_matches(&vec![F, E, F], &vec![PU, PU, PE]));
}

#[test]
fn line_matches_looks_at_common_cells_only() {
    assert!(line_matches(&vec![F, E], &vec![PF]));
    assert!(line_matches(&vec![F], &vec![PF, PF]));
    assert!(!line_matches(&vec![F, E], &vec![PE]));
}

#[test]
fn filter_keeps_matching_possibilities_in_order() {
    let sets = vec![
        vec![vec![F, F, E, E], vec![E, F, F, E], vec![E, E, F, F]],
        vec![vec![F, E], vec![E, F]],
    ];
    let patterns = vec![vec![PE, PU, PU, PU], vec![PU, PU]];
    assert_eq!(
        filter_lines_possibilities(&patterns, &sets),
        vec![vec![vec![E, F, F, E], vec![E, E, F, F]], vec![vec![F, E], vec![E, F]]]
    );
}

#[test]
fn filter_may_leave_no_possibility() {
    let sets = vec![vec![vec![F, E], vec![E, F]]];
    assert_eq!(
        filter_lines_possibilities(&vec![vec![PE, PE]], &sets),
        vec![Vec::<Vec<Cell>>::new()]
    );
}

#[test]
fn filter_stops_at_the_shorter_side() {
    let sets = vec![vec![vec![F]], vec![vec![E]]];
    assert_eq!(filter_lines_possibilities(&vec![vec![PF]], &sets), vec![vec![vec![F]]]);
    assert_eq!(
        filter_lines_possibilities(&vec![vec![PF], vec![PF], vec![PF]], &sets),
        vec![vec![vec![F]], vec![]]
    );
}

#[test]
fn filter_never_grows_with_more_certain_patterns() {
    let sets = vec![generate_line_possibilities(&vec![2, 1], 7)];
    let grids = [
        vec![vec![PU, PU, PU, PU, PU, PU, PU]],
        vec![vec![PU, PU, PU, PE, PU, PU, PU]],
        vec![vec![PU, PF, PU, PE, PU, PU, PU]],
        vec![vec![PU, PF, PU, PE, PE, PU, PU]],
        vec![vec![PE, PF, PF, PE, PE, PE, PF]],
    ];
    let mut current = sets.clone();
    let mut sizes = vec![current[0].len()];
    for grid in &grids {
        let next = filter_lines_possibilities(grid, &current);
        // Filtering what was filtered before gives what filtering the whole set gives.
        assert_eq!(next, filter_lines_possibilities(grid, &sets));
        assert!(next[0].len() <= current[0].len());
        sizes.push(next[0].len());
        current = next;
    }
    assert_eq!(sizes, vec![10, 10, 6, 6, 4, 1]);
}

#[test]
fn equal_grids_have_not_changed() {
    let g = vec![vec![PE, PU], vec![PF, PF]];
    assert!(!has_map_changed(&g, &g.clone()));
    assert!(!has_map_changed(&vec![], &vec![]));
}

#[test]
fn one_different_cell_is_a_change() {
    let g = vec![vec![PE, PU], vec![PF, PF]];
    assert!(has_map_changed(&g, &vec![vec![PE, PU], vec![PF, PU]]));
    assert!(has_map_changed(&g, &vec![vec![PF, PU], vec![PF, PF]]));
}

#[test]
fn cells_that_one_grid_lacks_are_not_compared() {
    let g = vec![vec![PE, PU], vec![PF, PF]];
    assert!(!has_map_changed(&g, &vec![vec![PE, PU]]));
    assert!(!has_map_changed(&g, &vec![vec![PE], vec![PF, PF, PU]]));
}

#[test]
fn solve_single_filled_cell() {
    assert_eq!(solve(1, 1, vec![vec![1]], vec![vec![1]], false), Ok((vec![vec![PF]], vec![])));
}

#[test]
fn solve_single_empty_cell() {
    assert_eq!(solve(1, 1, vec![vec![]], vec![vec![]], false), Ok((vec![vec![PE]], vec![])));
}

#[test]
fn solve_ambiguous_diagonal_stays_uncertain() {
    let ones = vec![vec![1], vec![1], vec![1]];
    let (grid, snapshots) = solve(3, 3, ones.clone(), ones, true).unwrap();
    assert_eq!(grid, vec![vec![PU; 3]; 3]);
    assert!(grid.iter().flatten().any(|c| *c == PU));
    assert_eq!(snapshots, Vec::<Vec<Vec<CellPattern>>>::new());
}

#[test]
fn solve_full_row_over_empty_row() {
    let (grid, snapshots) =
        solve(2, 2, vec![vec![2], vec![]], vec![vec![1], vec![1]], true).unwrap();
    assert_eq!(grid, vec![vec![PF, PF], vec![PE, PE]]);
    // The first grid is already the last: no round changes it.
    assert_eq!(snapshots, Vec::<Vec<Vec<CellPattern>>>::new());
}

#[test]
fn solve_contradiction_is_a_merge_conflict() {
    assert_eq!(
        solve(1, 1, vec![vec![1]], vec![vec![]], false),
        Err(SolveError::MergeConflict)
    );
    assert_eq!(
        solve(2, 2, vec![vec![2], vec![2]], vec![vec![2], vec![]], true),
        Err(SolveError::MergeConflict)
    );
}

#[test]
fn solve_needs_a_round_of_filtering() {
    let rows = vec![vec![2], vec![1]];
    let cols = vec![vec![1], vec![2]];
    let solved = vec![vec![PF, PF], vec![PE, PF]];
    assert_eq!(
        solve(2, 2, rows.clone(), cols.clone(), true),
        Ok((solved.clone(), vec![solved.clone()]))
    );
    assert_eq!(solve(2, 2, rows, cols, false), Ok((solved, vec![])));
}

#[test]
fn solve_a_five_by_five_picture() {
    let rows = vec![vec![5], vec![1, 1], vec![1, 1, 1], vec![1, 1], vec![5]];
    let cols = rows.clone();
    let (grid, _) = solve(5, 5, rows, cols, false).unwrap();
    let picture = ["XXXXX", "X...X", "X.X.X", "X...X", "XXXXX"];
    let expected: Vec<Vec<CellPattern>> = picture
        .iter()
        .map(|line| line.chars().map(|c| if c == 'X' { PF } else { PE }).collect())
        .collect();
    assert_eq!(grid, expected);
}

#[test]
fn solve_keeps_the_grid_after_each_changing_round() {
    let rows = vec![vec![5], vec![1, 1], vec![1, 1, 1], vec![1, 1], vec![5]];
    let cols = rows.clone();
    let (grid, snapshots) = solve(5, 5, rows, cols, true).unwrap();
    assert_eq!(snapshots.len(), 1);
    assert!(!snapshots.is_empty());
    assert_eq!(snapshots.last(), Some(&grid));
    for pair in snapshots.windows(2) {
        assert!(has_map_changed(&pair[0], &pair[1]));
        // A cell that is proven stays as it is.
        for (before, after) in pair[0].iter().flatten().zip(pair[1].iter().flatten()) {
            assert!(*before == PU || before == after);
        }
    }
}

#[test]
fn solve_fails_where_a_line_cannot_hold_its_blocks() {
    assert_eq!(solve(1, 1, vec![vec![2]], vec![vec![1]], false), Err(SolveError::ReductionError));
    assert_eq!(solve(2, 2, vec![vec![1], vec![1]], vec![vec![1], vec![1, 1]], false), Err(SolveError::ReductionError));
}

#[test]
fn solve_without_columns_is_a_shape_error() {
    assert_eq!(solve(0, 1, vec![vec![]], vec![], false), Err(SolveError::ShapeError));
}

#[test]
fn solve_stalls_on_a_picture_with_a_mirror_image() {
    // X X X . .      . . X X X
    // X . . . .      . . . . X
    // X X X X X  or  X X X X X
    // . . . . X      X . . . .
    // . . X X X      X X X . .
    let rows = vec![vec![3], vec![1], vec![5], vec![1], vec![3]];
    let cols = vec![vec![3], vec![1, 1], vec![1, 1, 1], vec![1, 1], vec![3]];
    let (grid, _) = solve(5, 5, rows, cols, false).unwrap();
    assert_eq!(
        grid,
        vec![
            vec![PU, PU, PF, PU, PU],
            vec![PU, PE, PE, PE, PU],
            vec![PF, PF, PF, PF, PF],
            vec![PU, PE, PE, PE, PU],
            vec![PU, PU, PF, PU, PU],
        ]
    );
}

#[test]
fn solve_a_grid_that_is_not_square() {
    let rows = vec![vec![3], vec![1]];
    let cols = vec![vec![2], vec![1], vec![1]];
    let (grid, snapshots) = solve(3, 2, rows, cols, true).unwrap();
    assert_eq!(grid, vec![vec![PF, PF, PF], vec![PF, PE, PE]]);
    assert_eq!(snapshots, vec![grid.clone()]);
    assert_eq!(grid.len(), 2);
    assert!(grid.iter().all(|row| row.len() == 3));
}

#[test]
fn solve_without_rows_is_a_shape_error() {
    assert_eq!(solve(1, 0, vec![], vec![vec![]], false), Err(SolveError::ShapeError));
}

#[test]
fn solve_takes_the_sizes_as_given() {
    // Two rows of three cells, but the height says three: the columns are three cells
    // long and only the rows that have blocks are merged.
    let rows = vec![vec![3], vec![]];
    let cols = vec![vec![1], vec![1], vec![1]];
    let (grid, _) = solve(3, 3, rows, cols, false).unwrap();
    assert_eq!(grid, vec![vec![PF, PF, PF], vec![PE, PE, PE]]);
}

#[test]
fn iterate_from_a_given_state() {
    let rows = vec![generate_line_possibilities(&vec![1], 2)];
    let cols = vec![generate_line_possibilities(&vec![], 1), generate_line_possibilities(&vec![1], 1)];
    let solution = iterate(&config(true), vec![vec![PU, PU]], rows, cols).unwrap();
    assert_eq!(solution.grid, vec![vec![PE, PF]]);
    assert_eq!(solution.snapshots, vec![vec![vec![PE, PF]]]);
}

#[test]
fn iterate_fails_when_filtering_leaves_nothing() {
    let rows = vec![generate_line_possibilities(&vec![1], 2)];
    let cols = vec![generate_line_possibilities(&vec![], 1), generate_line_possibilities(&vec![], 1)];
    assert_eq!(
        iterate(&config(false), vec![vec![PF, PF]], rows, cols).map(|s| s.grid),
        Err(SolveError::ReductionError)
    );
}
