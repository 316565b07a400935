//! The mathematics of propagation: the pattern of a possibility set, the cross merge of
//! the rows' and the columns' patterns, filtering, and the rounds of the solver.

use crate::cell::{Cell, CellPattern};
use crate::error::SolveError;
use crate::grid::{is_rectangular, shorter, transposed};
use crate::possibility::possibilities;
use crate::puzzle_info::PuzzleInfoView;
use vstd::prelude::*;

verus! {

/// What the cells that all possibilities of a line have at one position prove of it:
/// `Empty` if all are empty, `Filled` if all are filled, else `Uncertain`.
pub open spec fn agreement(column: Seq<Cell>) -> CellPattern {
    if forall|i: int| 0 <= i < column.len() ==> #[trigger] column[i] == Cell::Empty {
        CellPattern::Empty
    } else if forall|i: int| 0 <= i < column.len() ==> #[trigger] column[i] == Cell::Filled {
        CellPattern::Filled
    } else {
        CellPattern::Uncertain
    }
}

/// The pattern of a possibility set: position by position the agreement of its lines.
/// A set without lines has no pattern, and neither has one with lines of different lengths.
pub open spec fn line_pattern(lines: Seq<Seq<Cell>>) -> Result<Seq<CellPattern>, SolveError> {
    if lines.len() == 0 {
        Err(SolveError::ReductionError)
    } else if !is_rectangular(lines) {
        Err(SolveError::ShapeError)
    } else {
        Ok(Seq::new(lines[0].len(), |j: int| agreement(transposed(lines)[j])))
    }
}

/// The patterns of the possibility sets, line by line, or the error of the first set
/// that has no pattern.
pub open spec fn patterns_of(sets: Seq<Seq<Seq<Cell>>>) -> Result<Seq<Seq<CellPattern>>, SolveError>
    decreases sets.len(),
{
    if sets.len() == 0 {
        Ok(Seq::empty())
    } else {
        match patterns_of(sets.drop_last()) {
            Err(e) => Err(e),
            Ok(earlier) => match line_pattern(sets.last()) {
                Err(e) => Err(e),
                Ok(p) => Ok(earlier.push(p)),
            },
        }
    }
}

/// The cell of the merged grid at row `i`, column `j`: what the row's pattern and the
/// column's pattern prove of it together.
pub open spec fn merged_cell(
    rows: Seq<Seq<CellPattern>>,
    cols: Seq<Seq<CellPattern>>,
    i: int,
    j: int,
) -> Result<CellPattern, SolveError> {
    CellPattern::reconciled(rows[i][j], cols[j][i])
}

/// The number of rows of the merged grid: rows are merged as far as both the rows'
/// patterns and the length of the columns' patterns reach.
pub open spec fn merged_height(rows: Seq<Seq<CellPattern>>, cols: Seq<Seq<CellPattern>>) -> nat {
    shorter(rows.len(), cols[0].len())
}

/// The number of cells of row `i` of the merged grid.
pub open spec fn merged_width(rows: Seq<Seq<CellPattern>>, cols: Seq<Seq<CellPattern>>, i: int) -> nat {
    shorter(rows[i].len(), cols.len())
}

/// The rows' patterns and the columns' patterns contradict each other in some cell.
pub open spec fn in_conflict(rows: Seq<Seq<CellPattern>>, cols: Seq<Seq<CellPattern>>) -> bool {
    exists|i: int, j: int|
        0 <= i < merged_height(rows, cols) && 0 <= j < merged_width(rows, cols, i) && (
        #[trigger] merged_cell(rows, cols, i, j)) is Err
}

/// The grid that the patterns of the rows and the patterns of the columns give together.
/// The columns' patterns must form a matrix; one contradicting cell fails the merge.
pub open spec fn cross_merged(rows: Seq<Seq<CellPattern>>, cols: Seq<Seq<CellPattern>>) -> Result<
    Seq<Seq<CellPattern>>,
    SolveError,
> {
    if !is_rectangular(cols) {
        Err(SolveError::ShapeError)
    } else if in_conflict(rows, cols) {
        Err(SolveError::MergeConflict)
    } else {
        Ok(
            Seq::new(
                merged_height(rows, cols),
                |i: int|
                    Seq::new(
                        merged_width(rows, cols, i),
                        |j: int|
                            match merged_cell(rows, cols, i, j) {
                                Ok(c) => c,
                                Err(_) => CellPattern::Uncertain,
                            },
                    ),
            ),
        )
    }
}

/// A cell of a possibility does not contradict what is known of it.
pub open spec fn compatible(c: Cell, known: CellPattern) -> bool {
    known == CellPattern::Uncertain || known == c.pattern()
}

/// The possibility contradicts the pattern in no position that both have.
pub open spec fn matches_pattern(line: Seq<Cell>, pattern: Seq<CellPattern>) -> bool {
    forall|j: int| 0 <= j < line.len() && j < pattern.len() ==> compatible(line[j], pattern[j])
}

/// The possibilities of a set that match the pattern, in their order.
pub open spec fn surviving(lines: Seq<Seq<Cell>>, pattern: Seq<CellPattern>) -> Seq<Seq<Cell>> {
    lines.filter(|line: Seq<Cell>| matches_pattern(line, pattern))
}

/// Each possibility set filtered by the pattern of its line, as far as there are both
/// sets and patterns.
pub open spec fn filtered(patterns: Seq<Seq<CellPattern>>, sets: Seq<Seq<Seq<Cell>>>) -> Seq<
    Seq<Seq<Cell>>,
> {
    Seq::new(shorter(sets.len(), patterns.len()), |i: int| surviving(sets[i], patterns[i]))
}

/// The two grids differ in a cell that both have.
pub open spec fn grids_differ(a: Seq<Seq<CellPattern>>, b: Seq<Seq<CellPattern>>) -> bool {
    exists|i: int, j: int|
        0 <= i < a.len() && i < b.len() && 0 <= j < a[i].len() && j < b[i].len() && #[trigger] a[i][j]
            != #[trigger] b[i][j]
}

/// One more line changes the agreement as `merge` says.
pub proof fn lemma_agreement_push(column: Seq<Cell>, c: Cell)
    requires
        column.len() > 0,
    ensures
        agreement(column.push(c)) == CellPattern::merged(agreement(column), c.pattern()),
        agreement(seq![c]) == c.pattern(),
{
    let longer = column.push(c);
    assert(longer[column.len() as int] == c);
    assert(seq![c][0] == c);
    assert forall|i: int| 0 <= i < column.len() implies longer[i] == column[i] by {}
    if agreement(column) == CellPattern::Uncertain {
        let i = choose|i: int| 0 <= i < column.len() && column[i] != Cell::Empty;
        let k = choose|k: int| 0 <= k < column.len() && column[k] != Cell::Filled;
        assert(longer[i] != Cell::Empty);
        assert(longer[k] != Cell::Filled);
    } else {
        assert(column[0] == longer[0]);
    }
}

/// Filtering a set with one more line keeps that line if and only if it matches.
pub proof fn lemma_surviving_push(lines: Seq<Seq<Cell>>, line: Seq<Cell>, pattern: Seq<CellPattern>)
    ensures
        surviving(lines.push(line), pattern) == if matches_pattern(line, pattern) {
            surviving(lines, pattern).push(line)
        } else {
            surviving(lines, pattern)
        },
{
    reveal(Seq::filter);
    assert(lines.push(line).drop_last() =~= lines);
    assert(lines.push(line).last() == line);
}

/// Filtering no lines leaves no lines.
pub proof fn lemma_surviving_none(pattern: Seq<CellPattern>)
    ensures
        surviving(Seq::<Seq<Cell>>::empty(), pattern) == Seq::<Seq<Cell>>::empty(),
{
    reveal(Seq::filter);
}

/// What the solver holds between two rounds.
pub ghost struct SolverState {
    /// What is known of every cell.
    pub grid: Seq<Seq<CellPattern>>,
    /// The possibilities that are left for each row.
    pub rows: Seq<Seq<Seq<Cell>>>,
    /// The possibilities that are left for each column.
    pub cols: Seq<Seq<Seq<Cell>>>,
}

/// The possibility set of each block sequence in a line of `n` cells.
pub open spec fn possibility_sets(blocks: Seq<Seq<nat>>, n: nat) -> Seq<Seq<Seq<Cell>>> {
    Seq::new(blocks.len(), |i: int| possibilities(blocks[i], n))
}

/// The grid that the possibility sets of the rows and of the columns prove: the cross
/// merge of their patterns. The rows' patterns are taken first, so their error comes first.
pub open spec fn grid_of(rows: Seq<Seq<Seq<Cell>>>, cols: Seq<Seq<Seq<Cell>>>) -> Result<
    Seq<Seq<CellPattern>>,
    SolveError,
> {
    match patterns_of(rows) {
        Err(e) => Err(e),
        Ok(row_patterns) => match patterns_of(cols) {
            Err(e) => Err(e),
            Ok(col_patterns) => cross_merged(row_patterns, col_patterns),
        },
    }
}

/// The state before the first round: all possibilities of every line, and the grid
/// that they prove.
pub open spec fn initial_state(puzzle: PuzzleInfoView) -> Result<SolverState, SolveError> {
    let rows = possibility_sets(puzzle.row_blocks, puzzle.width);
    let cols = possibility_sets(puzzle.col_blocks, puzzle.height);
    match grid_of(rows, cols) {
        Err(e) => Err(e),
        Ok(grid) => Ok(SolverState { grid, rows, cols }),
    }
}

/// One round: the possibilities of the rows are filtered by the grid, those of the
/// columns by the transposed grid, and what is left proves the next grid.
pub open spec fn next_state(s: SolverState) -> Result<SolverState, SolveError> {
    if !is_rectangular(s.grid) {
        Err(SolveError::ShapeError)
    } else {
        let rows = filtered(s.grid, s.rows);
        let cols = filtered(transposed(s.grid), s.cols);
        match grid_of(rows, cols) {
            Err(e) => Err(e),
            Ok(grid) => Ok(SolverState { grid, rows, cols }),
        }
    }
}

/// The state after `k` rounds from `start`, or the error that the first failing round gave.
pub open spec fn state_after(start: Result<SolverState, SolveError>, k: nat) -> Result<
    SolverState,
    SolveError,
>
    decreases k,
{
    if k == 0 {
        start
    } else {
        match state_after(start, (k - 1) as nat) {
            Err(e) => Err(e),
            Ok(s) => next_state(s),
        }
    }
}

/// Round `k + 1` succeeds and changes the grid.
pub open spec fn progresses(start: Result<SolverState, SolveError>, k: nat) -> bool {
    match (state_after(start, k), state_after(start, k + 1)) {
        (Ok(s), Ok(t)) => grids_differ(s.grid, t.grid),
        _ => false,
    }
}

/// The first `k` rounds change the grid, and the round after them fails or changes nothing.
pub open spec fn settles_at(start: Result<SolverState, SolveError>, k: nat) -> bool {
    (forall|j: nat| j < k ==> progresses(start, j)) && !progresses(start, k)
}

/// The solver comes to an end from `start`.
pub open spec fn settles(start: Result<SolverState, SolveError>) -> bool {
    exists|k: nat| settles_at(start, k)
}

/// The number of rounds that change the grid.
pub open spec fn rounds(start: Result<SolverState, SolveError>) -> nat {
    choose|k: nat| settles_at(start, k)
}

/// What the solver gives: the error of the round in which it stops, or else the grid
/// that this round left unchanged.
pub open spec fn solved(start: Result<SolverState, SolveError>) -> Result<
    Seq<Seq<CellPattern>>,
    SolveError,
> {
    match state_after(start, rounds(start) + 1) {
        Err(e) => Err(e),
        Ok(_) => match state_after(start, rounds(start)) {
            Err(e) => Err(e),
            Ok(s) => Ok(s.grid),
        },
    }
}

/// The grids after each of the first `k` rounds.
pub open spec fn grids_after(start: Result<SolverState, SolveError>, k: nat) -> Seq<
    Seq<Seq<CellPattern>>,
> {
    Seq::new(
        k,
        |j: int|
            match state_after(start, (j + 1) as nat) {
                Ok(s) => s.grid,
                Err(_) => Seq::empty(),
            },
    )
}

/// The solver stops in one round only: the number of rounds is determined.
pub proof fn lemma_settles_once(start: Result<SolverState, SolveError>, k: nat)
    requires
        settles_at(start, k),
    ensures
        settles(start),
        rounds(start) == k,
{
    let r = rounds(start);
    assert(settles_at(start, r));
    if r < k {
        assert(progresses(start, r));
    } else if k < r {
        assert(progresses(start, k));
    }
}

} // verus!
