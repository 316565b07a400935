//! The shape of the grid. Where the sizes of a puzzle are the numbers of its block
//! sequences, every grid of the solve has one row for each row of the puzzle and one
//! cell in it for each column.

use crate::cell::{Cell, CellPattern};
use crate::grid::{is_rectangular, transposed};
use crate::possibility::{lemma_possibilities_length, possibilities};
use crate::progress::lemma_patterns_of_each;
use crate::propagation::{
    cross_merged, filtered, grid_of, initial_state, lemma_surviving_none, lemma_surviving_push,
    line_pattern, next_state, patterns_of, possibility_sets, state_after, surviving, SolverState,
};
use crate::puzzle_info::PuzzleInfoView;
use vstd::prelude::*;

verus! {

/// The grid has `height` rows of `width` cells.
pub open spec fn has_shape(grid: Seq<Seq<CellPattern>>, height: nat, width: nat) -> bool {
    grid.len() == height && forall|i: int| 0 <= i < grid.len() ==> (#[trigger] grid[i]).len() == width
}

/// There are `count` possibility sets, and each of their lines has `n` cells.
pub open spec fn sets_have_shape(sets: Seq<Seq<Seq<Cell>>>, count: nat, n: nat) -> bool {
    sets.len() == count && forall|i: int, j: int|
        0 <= i < sets.len() && 0 <= j < sets[i].len() ==> (#[trigger] sets[i][j]).len() == n
}

/// The state is that of a puzzle of `height` rows and `width` columns.
pub open spec fn state_has_shape(s: SolverState, height: nat, width: nat) -> bool {
    &&& has_shape(s.grid, height, width)
    &&& sets_have_shape(s.rows, height, width)
    &&& sets_have_shape(s.cols, width, height)
}

/// The puzzle has a block sequence for each of its `height` rows and `width` columns.
pub open spec fn sizes_match_blocks(puzzle: PuzzleInfoView) -> bool {
    puzzle.height == puzzle.row_blocks.len() && puzzle.width == puzzle.col_blocks.len()
}

/// Filtering keeps the length of the lines.
proof fn lemma_survivors_keep_length(lines: Seq<Seq<Cell>>, pattern: Seq<CellPattern>, n: nat)
    requires
        forall|j: int| 0 <= j < lines.len() ==> (#[trigger] lines[j]).len() == n,
    ensures
        forall|j: int|
            0 <= j < surviving(lines, pattern).len() ==> (#[trigger] surviving(lines, pattern)[j]).len()
                == n,
    decreases lines.len(),
{
    if lines.len() == 0 {
        lemma_surviving_none(pattern);
        assert(lines =~= Seq::<Seq<Cell>>::empty());
    } else {
        let earlier = lines.drop_last();
        assert(lines =~= earlier.push(lines.last()));
        assert forall|j: int| 0 <= j < earlier.len() implies (#[trigger] earlier[j]).len() == n by {
            assert(earlier[j] == lines[j]);
        }
        lemma_surviving_push(earlier, lines.last(), pattern);
        lemma_survivors_keep_length(earlier, pattern, n);
    }
}

/// Filtering by a grid of as many lines keeps the shape of the possibility sets.
proof fn lemma_filtered_shape(
    patterns: Seq<Seq<CellPattern>>,
    sets: Seq<Seq<Seq<Cell>>>,
    count: nat,
    n: nat,
)
    requires
        sets_have_shape(sets, count, n),
        patterns.len() == count,
    ensures
        sets_have_shape(filtered(patterns, sets), count, n),
{
    let kept = filtered(patterns, sets);
    assert forall|i: int, j: int| 0 <= i < kept.len() && 0 <= j < kept[i].len() implies (
    #[trigger] kept[i][j]).len() == n by {
        assert forall|m: int| 0 <= m < sets[i].len() implies (#[trigger] sets[i][m]).len() == n by {}
        lemma_survivors_keep_length(sets[i], patterns[i], n);
    }
}

/// The grid that possibility sets of a shape prove has that shape.
proof fn lemma_grid_of_shape(
    rows: Seq<Seq<Seq<Cell>>>,
    cols: Seq<Seq<Seq<Cell>>>,
    height: nat,
    width: nat,
)
    requires
        sets_have_shape(rows, height, width),
        sets_have_shape(cols, width, height),
        grid_of(rows, cols) is Ok,
    ensures
        has_shape(grid_of(rows, cols)->Ok_0, height, width),
{
    let row_patterns = patterns_of(rows)->Ok_0;
    let col_patterns = patterns_of(cols)->Ok_0;
    let grid = grid_of(rows, cols)->Ok_0;
    lemma_patterns_of_each(rows);
    lemma_patterns_of_each(cols);
    assert(cross_merged(row_patterns, col_patterns) is Ok);
    assert(is_rectangular(col_patterns));
    assert forall|i: int| 0 <= i < row_patterns.len() implies (#[trigger] row_patterns[i]).len()
        == width by {
        assert(line_pattern(rows[i]) is Ok);
        assert(rows[i][0].len() == width);
    }
    assert forall|j: int| 0 <= j < col_patterns.len() implies (#[trigger] col_patterns[j]).len()
        == height by {
        assert(line_pattern(cols[j]) is Ok);
        assert(cols[j][0].len() == height);
    }
    assert(col_patterns[0].len() == height);
    assert(grid.len() == height);
    assert forall|i: int| 0 <= i < grid.len() implies (#[trigger] grid[i]).len() == width by {
        assert(row_patterns[i].len() == width);
    }
}

/// The first state of a puzzle whose sizes match its blocks has the shape of the puzzle.
pub proof fn lemma_initial_state_shape(puzzle: PuzzleInfoView)
    requires
        sizes_match_blocks(puzzle),
        initial_state(puzzle) is Ok,
    ensures
        state_has_shape(initial_state(puzzle)->Ok_0, puzzle.height, puzzle.width),
{
    let rows = possibility_sets(puzzle.row_blocks, puzzle.width);
    let cols = possibility_sets(puzzle.col_blocks, puzzle.height);
    assert(sets_have_shape(rows, puzzle.height, puzzle.width)) by {
        assert forall|i: int, j: int| 0 <= i < rows.len() && 0 <= j < rows[i].len() implies (
        #[trigger] rows[i][j]).len() == puzzle.width by {
            lemma_possibilities_length(puzzle.row_blocks[i], puzzle.width);
            assert(rows[i] == possibilities(puzzle.row_blocks[i], puzzle.width));
        }
    }
    assert(sets_have_shape(cols, puzzle.width, puzzle.height)) by {
        assert forall|i: int, j: int| 0 <= i < cols.len() && 0 <= j < cols[i].len() implies (
        #[trigger] cols[i][j]).len() == puzzle.height by {
            lemma_possibilities_length(puzzle.col_blocks[i], puzzle.height);
            assert(cols[i] == possibilities(puzzle.col_blocks[i], puzzle.height));
        }
    }
    lemma_grid_of_shape(rows, cols, puzzle.height, puzzle.width);
}

/// A round keeps the shape of the state.
pub proof fn lemma_round_keeps_shape(s: SolverState, height: nat, width: nat)
    requires
        state_has_shape(s, height, width),
        next_state(s) is Ok,
    ensures
        state_has_shape(next_state(s)->Ok_0, height, width),
{
    let rows = filtered(s.grid, s.rows);
    let cols = filtered(transposed(s.grid), s.cols);
    assert(is_rectangular(s.grid));
    assert(s.grid[0].len() == width);
    assert(transposed(s.grid).len() == width);
    lemma_filtered_shape(s.grid, s.rows, height, width);
    lemma_filtered_shape(transposed(s.grid), s.cols, width, height);
    lemma_grid_of_shape(rows, cols, height, width);
}

/// Every state of the solve of a puzzle whose sizes match its blocks has the shape of
/// the puzzle: the grid stays a rectangle of `height` rows and `width` columns.
pub proof fn lemma_solve_keeps_shape(puzzle: PuzzleInfoView, k: nat)
    requires
        sizes_match_blocks(puzzle),
        state_after(initial_state(puzzle), k) is Ok,
    ensures
        state_has_shape(state_after(initial_state(puzzle), k)->Ok_0, puzzle.height, puzzle.width),
    decreases k,
{
    if k == 0 {
        lemma_initial_state_shape(puzzle);
    } else {
        let before = state_after(initial_state(puzzle), (k - 1) as nat);
        assert(before is Ok);
        lemma_solve_keeps_shape(puzzle, (k - 1) as nat);
        lemma_round_keeps_shape(before->Ok_0, puzzle.height, puzzle.width);
    }
}

} // verus!
