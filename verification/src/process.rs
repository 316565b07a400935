//! The solver: line patterns from possibility sets, the cross merge of rows and columns,
//! and the propagation loop that repeats both until the grid stops changing.

use crate::cell::{Cell, CellPattern};
use crate::config::{Config, ConfigView};
use crate::error::SolveError;
use crate::generator::generate_line_possibilities;
use crate::grid::{is_rectangular, rows_view, sets_view, shorter, transposed};
use crate::line::block_lengths;
use crate::progress::{
    keeps_proven, lemma_filtered_weight, lemma_filtering_never_grows, lemma_solver_settles,
    uncertain_cells, weight,
};
use crate::propagation::{
    agreement, compatible, cross_merged, filtered, grid_of, grids_after, grids_differ, in_conflict,
    initial_state, lemma_agreement_push, lemma_settles_once, lemma_surviving_none,
    lemma_surviving_push, line_pattern, matches_pattern, merged_cell, merged_height, merged_width,
    next_state, patterns_of, possibility_sets, progresses, rounds, settles, solved, state_after,
    surviving, SolverState,
};
use crate::puzzle_info::{blocks_view, PuzzleInfo};
use crate::shape::{has_shape, lemma_solve_keeps_shape, sizes_match_blocks};
use vstd::prelude::*;

verus! {

/// Whether all rows of a matrix with at least one row are as long as the first.
fn check_rectangular<T: Copy>(v: &Vec<Vec<T>>) -> (r: Result<(), SolveError>)
    requires
        v@.len() > 0,
    ensures
        r is Ok <==> is_rectangular(rows_view(v@)),
        r is Err ==> r == Err::<(), SolveError>(SolveError::ShapeError),
{
    let cols = v[0].len();
    let mut i: usize = 1;
    while i < v.len()
        invariant
            1 <= i <= v@.len(),
            cols == v@[0]@.len(),
            forall|k: int| 0 <= k < i ==> (#[trigger] rows_view(v@)[k]).len() == cols,
        decreases v@.len() - i,
    {
        if v[i].len() != cols {
            assert(rows_view(v@)[i as int].len() != rows_view(v@)[0].len());
            return Err(SolveError::ShapeError);
        }
        i += 1;
    }
    Ok(())
}

/// Exchanges the rows and columns of a matrix. A matrix without rows, or with rows of
/// different lengths, has no transpose.
pub fn transpose<T: Copy>(v: &Vec<Vec<T>>) -> (r: Result<Vec<Vec<T>>, SolveError>)
    ensures
        match r {
            Ok(t) => is_rectangular(rows_view(v@)) && rows_view(t@) == transposed(rows_view(v@)),
            Err(e) => !is_rectangular(rows_view(v@)) && e == SolveError::ShapeError,
        },
{
    if v.len() == 0 {
        return Err(SolveError::ShapeError);
    }
    match check_rectangular(v) {
        Err(e) => {
            return Err(e);
        },
        Ok(_) => {},
    }
    let ghost m = rows_view(v@);
    let cols = v[0].len();
    let mut t: Vec<Vec<T>> = Vec::new();
    let mut j: usize = 0;
    while j < cols
        invariant
            j <= cols,
            cols == m[0].len(),
            m == rows_view(v@),
            is_rectangular(m),
            t@.len() == j,
            forall|k: int| 0 <= k < j ==> (#[trigger] t@[k])@ == transposed(m)[k],
        decreases cols - j,
    {
        let mut column: Vec<T> = Vec::new();
        let mut i: usize = 0;
        while i < v.len()
            invariant
                i <= v@.len(),
                j < cols,
                cols == m[0].len(),
                m == rows_view(v@),
                is_rectangular(m),
                column@.len() == i,
                forall|k: int| 0 <= k < i ==> #[trigger] column@[k] == m[k][j as int],
            decreases v@.len() - i,
        {
            assert(m[i as int].len() == cols);
            column.push(v[i][j]);
            i += 1;
        }
        assert(column@ =~= transposed(m)[j as int]);
        t.push(column);
        j += 1;
    }
    assert(rows_view(t@) =~= transposed(m));
    Ok(t)
}

/// Folds the cells that the possibilities of a line have at one position through `merge`.
fn fold_column(column: &Vec<Cell>) -> (r: CellPattern)
    requires
        column@.len() > 0,
    ensures
        r == agreement(column@),
{
    let mut acc = column[0].to_pattern();
    let mut i: usize = 1;
    proof {
        lemma_agreement_push(column@.take(1), column@[0]);
        assert(column@.take(1) =~= seq![column@[0]]);
    }
    while i < column.len()
        invariant
            1 <= i <= column@.len(),
            acc == agreement(column@.take(i as int)),
        decreases column@.len() - i,
    {
        proof {
            lemma_agreement_push(column@.take(i as int), column@[i as int]);
            assert(column@.take(i as int).push(column@[i as int]) =~= column@.take(i + 1));
        }
        acc = CellPattern::merge(acc, column[i].to_pattern());
        i += 1;
    }
    assert(column@.take(i as int) =~= column@);
    acc
}

/// The pattern of a possibility set: for each position what all its lines agree on.
/// An empty set has no pattern and gives `ReductionError`.
pub fn merge_line_possibilities(possibilities: &Vec<Vec<Cell>>) -> (r: Result<
    Vec<CellPattern>,
    SolveError,
>)
    ensures
        match r {
            Ok(pattern) => line_pattern(rows_view(possibilities@)) == Ok::<
                Seq<CellPattern>,
                SolveError,
            >(pattern@),
            Err(e) => line_pattern(rows_view(possibilities@)) == Err::<Seq<CellPattern>, SolveError>(e),
        },
{
    if possibilities.len() == 0 {
        return Err(SolveError::ReductionError);
    }
    let columns = match transpose(possibilities) {
        Err(e) => {
            return Err(e);
        },
        Ok(columns) => columns,
    };
    let ghost lines = rows_view(possibilities@);
    let mut pattern: Vec<CellPattern> = Vec::new();
    let mut j: usize = 0;
    while j < columns.len()
        invariant
            j <= columns@.len(),
            lines.len() > 0,
            rows_view(columns@) == transposed(lines),
            rows_view(columns@).len() == columns@.len(),
            pattern@.len() == j,
            forall|k: int| 0 <= k < j ==> #[trigger] pattern@[k] == agreement(transposed(lines)[k]),
        decreases columns@.len() - j,
    {
        assert(rows_view(columns@)[j as int] == columns@[j as int]@);
        assert(transposed(lines)[j as int].len() == lines.len());
        pattern.push(fold_column(&columns[j]));
        j += 1;
    }
    assert(rows_view(columns@).len() == lines[0].len());
    assert(pattern@ =~= Seq::new(lines[0].len(), |j: int| agreement(transposed(lines)[j])));
    Ok(pattern)
}

/// Merges what the rows prove with what the columns prove, cell by cell through
/// `merge_known`. `cols_patterns` holds one pattern for each column and is transposed
/// first; the merge fails where that cannot be done, and where a cell is proven
/// empty by one side and filled by the other.
pub fn merge_rows_and_cols(
    rows_patterns: &Vec<Vec<CellPattern>>,
    cols_patterns: &Vec<Vec<CellPattern>>,
) -> (r: Result<Vec<Vec<CellPattern>>, SolveError>)
    ensures
        match r {
            Ok(grid) => cross_merged(rows_view(rows_patterns@), rows_view(cols_patterns@)) == Ok::<
                Seq<Seq<CellPattern>>,
                SolveError,
            >(rows_view(grid@)),
            Err(e) => cross_merged(rows_view(rows_patterns@), rows_view(cols_patterns@)) == Err::<
                Seq<Seq<CellPattern>>,
                SolveError,
            >(e),
        },
{
    let by_rows = match transpose(cols_patterns) {
        Err(e) => {
            return Err(e);
        },
        Ok(by_rows) => by_rows,
    };
    let ghost rows = rows_view(rows_patterns@);
    let ghost cols = rows_view(cols_patterns@);
    assert(rows_view(by_rows@).len() == cols[0].len());
    let height = if rows_patterns.len() <= by_rows.len() {
        rows_patterns.len()
    } else {
        by_rows.len()
    };
    let mut grid: Vec<Vec<CellPattern>> = Vec::new();
    let mut i: usize = 0;
    while i < height
        invariant
            i <= height,
            height == merged_height(rows, cols),
            rows == rows_view(rows_patterns@),
            cols == rows_view(cols_patterns@),
            is_rectangular(cols),
            rows_view(by_rows@) == transposed(cols),
            by_rows@.len() == cols[0].len(),
            grid@.len() == i,
            forall|k: int|
                0 <= k < i ==> (#[trigger] grid@[k])@.len() == merged_width(rows, cols, k),
            forall|k: int, j: int|
                0 <= k < i && 0 <= j < merged_width(rows, cols, k) ==> #[trigger] merged_cell(
                    rows,
                    cols,
                    k,
                    j,
                ) == Ok::<CellPattern, SolveError>(grid@[k]@[j]),
        decreases height - i,
    {
        let row = &rows_patterns[i];
        let column_cells = &by_rows[i];
        assert(rows[i as int] == row@);
        assert(rows_view(by_rows@)[i as int] == column_cells@);
        assert(column_cells@.len() == cols.len());
        let width = if row.len() <= column_cells.len() {
            row.len()
        } else {
            column_cells.len()
        };
        let mut merged: Vec<CellPattern> = Vec::new();
        let mut j: usize = 0;
        while j < width
            invariant
                j <= width,
                i < height,
                height == merged_height(rows, cols),
                width == merged_width(rows, cols, i as int),
                rows == rows_view(rows_patterns@),
                cols == rows_view(cols_patterns@),
                rows[i as int] == row@,
                transposed(cols)[i as int] == column_cells@,
                column_cells@.len() == cols.len(),
                is_rectangular(cols),
                merged@.len() == j,
                forall|k: int|
                    0 <= k < j ==> #[trigger] merged_cell(rows, cols, i as int, k) == Ok::<
                        CellPattern,
                        SolveError,
                    >(merged@[k]),
            decreases width - j,
        {
            assert(column_cells@[j as int] == cols[j as int][i as int]);
            match CellPattern::merge_known(row[j], column_cells[j]) {
                Err(e) => {
                    assert(merged_cell(rows, cols, i as int, j as int) is Err);
                    assert(in_conflict(rows, cols));
                    return Err(e);
                },
                Ok(c) => {
                    merged.push(c);
                },
            }
            j += 1;
        }
        grid.push(merged);
        i += 1;
    }
    proof {
        let expected = cross_merged(rows, cols);
        assert(!in_conflict(rows, cols));
        let g = rows_view(grid@);
        assert forall|k: int| 0 <= k < g.len() implies g[k] == Seq::new(
            merged_width(rows, cols, k),
            |j: int|
                match merged_cell(rows, cols, k, j) {
                    Ok(c) => c,
                    Err(_) => CellPattern::Uncertain,
                },
        ) by {
            assert(g[k] == grid@[k]@);
            assert forall|j: int| 0 <= j < merged_width(rows, cols, k) implies g[k][j] == (
            match merged_cell(rows, cols, k, j) {
                Ok(c) => c,
                Err(_) => CellPattern::Uncertain,
            }) by {
                assert(merged_cell(rows, cols, k, j) == Ok::<CellPattern, SolveError>(
                    grid@[k]@[j],
                ));
            }
            assert(g[k] =~= Seq::new(
                merged_width(rows, cols, k),
                |j: int|
                    match merged_cell(rows, cols, k, j) {
                        Ok(c) => c,
                        Err(_) => CellPattern::Uncertain,
                    },
            ));
        }
        assert(g =~= expected->Ok_0);
    }
    Ok(grid)
}

/// Whether the possibility contradicts the pattern nowhere: a proven cell of the pattern
/// must be the cell of the possibility. Cells beyond the shorter of the two are not looked at.
pub fn line_matches(possibility: &Vec<Cell>, pattern: &Vec<CellPattern>) -> (r: bool)
    ensures
        r == matches_pattern(possibility@, pattern@),
{
    let mut j: usize = 0;
    while j < possibility.len() && j < pattern.len()
        invariant
            forall|k: int| 0 <= k < j ==> compatible(possibility@[k], pattern@[k]),
            j <= possibility@.len(),
            j <= pattern@.len(),
        decreases possibility@.len() - j,
    {
        let fine = match (possibility[j], pattern[j]) {
            (Cell::Filled, CellPattern::Filled) => true,
            (Cell::Empty, CellPattern::Empty) => true,
            (_, CellPattern::Uncertain) => true,
            _ => false,
        };
        if !fine {
            assert(!compatible(possibility@[j as int], pattern@[j as int]));
            return false;
        }
        j += 1;
    }
    true
}

/// The possibilities of one line that match its pattern, in their order.
fn filter_possibilities(pattern: &Vec<CellPattern>, possibilities: &Vec<Vec<Cell>>) -> (kept: Vec<
    Vec<Cell>,
>)
    ensures
        rows_view(kept@) == surviving(rows_view(possibilities@), pattern@),
{
    let ghost lines = rows_view(possibilities@);
    let mut kept: Vec<Vec<Cell>> = Vec::new();
    let mut i: usize = 0;
    proof {
        lemma_surviving_none(pattern@);
        assert(lines.take(0) =~= Seq::<Seq<Cell>>::empty());
        assert(rows_view(kept@) =~= Seq::<Seq<Cell>>::empty());
    }
    while i < possibilities.len()
        invariant
            i <= possibilities@.len(),
            lines == rows_view(possibilities@),
            rows_view(kept@) == surviving(lines.take(i as int), pattern@),
        decreases possibilities@.len() - i,
    {
        let ghost before = rows_view(kept@);
        proof {
            lemma_surviving_push(lines.take(i as int), lines[i as int], pattern@);
            assert(lines.take(i as int).push(lines[i as int]) =~= lines.take(i + 1));
        }
        if line_matches(&possibilities[i], pattern) {
            kept.push(possibilities[i].clone());
            assert(rows_view(kept@) =~= before.push(lines[i as int]));
        }
        i += 1;
    }
    assert(lines.take(i as int) =~= lines);
    kept
}

/// Filters the possibility set of each line by the pattern of that line: a possibility
/// stays if it matches. Sets without a pattern, and patterns without a set, are left out.
pub fn filter_lines_possibilities(
    patterns: &Vec<Vec<CellPattern>>,
    lines_possibilities: &Vec<Vec<Vec<Cell>>>,
) -> (r: Vec<Vec<Vec<Cell>>>)
    ensures
        sets_view(r@) == filtered(rows_view(patterns@), sets_view(lines_possibilities@)),
        r@.len() <= lines_possibilities@.len(),
        forall|i: int|
            0 <= i < r@.len() ==> (#[trigger] r@[i])@.len() <= lines_possibilities@[i]@.len(),
{
    proof {
        let sets = sets_view(lines_possibilities@);
        let kept = filtered(rows_view(patterns@), sets);
        lemma_filtering_never_grows(rows_view(patterns@), sets);
        assert forall|r: Seq<Vec<Vec<Cell>>>, i: int|
            sets_view(r) == kept && 0 <= i < r.len() implies (#[trigger] r[i])@.len()
            <= lines_possibilities@[i]@.len() by {
            assert(sets_view(r)[i].len() == r[i]@.len());
            assert(kept[i].len() <= sets[i].len());
        }
    }
    let count = if lines_possibilities.len() <= patterns.len() {
        lines_possibilities.len()
    } else {
        patterns.len()
    };
    let ghost expected = filtered(rows_view(patterns@), sets_view(lines_possibilities@));
    let mut result: Vec<Vec<Vec<Cell>>> = Vec::new();
    let mut i: usize = 0;
    while i < count
        invariant
            i <= count,
            count == shorter(lines_possibilities@.len(), patterns@.len()),
            expected == filtered(rows_view(patterns@), sets_view(lines_possibilities@)),
            result@.len() == i,
            forall|k: int| 0 <= k < i ==> rows_view((#[trigger] result@[k])@) == expected[k],
        decreases count - i,
    {
        let kept = filter_possibilities(&patterns[i], &lines_possibilities[i]);
        assert(rows_view(patterns@)[i as int] == patterns@[i as int]@);
        assert(sets_view(lines_possibilities@)[i as int] == rows_view(
            lines_possibilities@[i as int]@,
        ));
        result.push(kept);
        i += 1;
    }
    assert(sets_view(result@) =~= expected);
    result
}

/// Whether the two grids differ in a cell that both have.
pub fn has_map_changed(map1: &Vec<Vec<CellPattern>>, map2: &Vec<Vec<CellPattern>>) -> (r: bool)
    ensures
        r == grids_differ(rows_view(map1@), rows_view(map2@)),
{
    let ghost a = rows_view(map1@);
    let ghost b = rows_view(map2@);
    let mut i: usize = 0;
    while i < map1.len() && i < map2.len()
        invariant
            i <= map1@.len(),
            i <= map2@.len(),
            a == rows_view(map1@),
            b == rows_view(map2@),
            forall|k: int, j: int|
                0 <= k < i && 0 <= j < a[k].len() && j < b[k].len() ==> #[trigger] a[k][j]
                    == #[trigger] b[k][j],
        decreases map1@.len() - i,
    {
        let line1 = &map1[i];
        let line2 = &map2[i];
        let mut j: usize = 0;
        while j < line1.len() && j < line2.len()
            invariant
                i < map1@.len(),
                i < map2@.len(),
                a == rows_view(map1@),
                b == rows_view(map2@),
                line1@ == a[i as int],
                line2@ == b[i as int],
                j <= line1@.len(),
                j <= line2@.len(),
                forall|k: int| 0 <= k < j ==> #[trigger] line1@[k] == line2@[k],
            decreases line1@.len() - j,
        {
            if line1[j] != line2[j] {
                assert(a[i as int][j as int] != b[i as int][j as int]);
                return true;
            }
            j += 1;
        }
        i += 1;
    }
    false
}

/// The pattern of each possibility set, or the error of the first set that has none.
fn merge_all_lines(sets: &Vec<Vec<Vec<Cell>>>) -> (r: Result<Vec<Vec<CellPattern>>, SolveError>)
    ensures
        match r {
            Ok(patterns) => patterns_of(sets_view(sets@)) == Ok::<
                Seq<Seq<CellPattern>>,
                SolveError,
            >(rows_view(patterns@)),
            Err(e) => patterns_of(sets_view(sets@)) == Err::<Seq<Seq<CellPattern>>, SolveError>(e),
        },
{
    let ghost all = sets_view(sets@);
    let mut patterns: Vec<Vec<CellPattern>> = Vec::new();
    let mut i: usize = 0;
    assert(all.take(0) =~= Seq::<Seq<Seq<Cell>>>::empty());
    assert(rows_view(patterns@) =~= Seq::<Seq<CellPattern>>::empty());
    while i < sets.len()
        invariant
            i <= sets@.len(),
            all == sets_view(sets@),
            patterns_of(all.take(i as int)) == Ok::<Seq<Seq<CellPattern>>, SolveError>(
                rows_view(patterns@),
            ),
        decreases sets@.len() - i,
    {
        proof {
            assert(all.take(i + 1).drop_last() =~= all.take(i as int));
            assert(all.take(i + 1).last() == rows_view(sets@[i as int]@));
            lemma_patterns_of_failed_prefix(all, i + 1);
        }
        let ghost before = rows_view(patterns@);
        match merge_line_possibilities(&sets[i]) {
            Err(e) => {
                return Err(e);
            },
            Ok(pattern) => {
                patterns.push(pattern);
                assert(rows_view(patterns@) =~= before.push(pattern@));
            },
        }
        i += 1;
    }
    assert(all.take(i as int) =~= all);
    Ok(patterns)
}

/// An error among the first sets is the error of them all.
proof fn lemma_patterns_of_failed_prefix(sets: Seq<Seq<Seq<Cell>>>, k: int)
    requires
        0 <= k <= sets.len(),
    ensures
        patterns_of(sets.take(k)) is Err ==> patterns_of(sets) == patterns_of(sets.take(k)),
    decreases sets.len() - k,
{
    if k == sets.len() {
        assert(sets.take(k) =~= sets);
    } else {
        assert(sets.take(k + 1).drop_last() =~= sets.take(k));
        lemma_patterns_of_failed_prefix(sets, k + 1);
    }
}

/// The possibility set of each block sequence in a line of `line_size` cells.
fn generate_all(blocks: &Vec<Vec<usize>>, line_size: usize) -> (sets: Vec<Vec<Vec<Cell>>>)
    ensures
        sets_view(sets@) == possibility_sets(blocks_view(blocks@), line_size as nat),
{
    let mut sets: Vec<Vec<Vec<Cell>>> = Vec::new();
    let mut i: usize = 0;
    while i < blocks.len()
        invariant
            i <= blocks@.len(),
            sets@.len() == i,
            forall|k: int|
                0 <= k < i ==> rows_view((#[trigger] sets@[k])@) == possibility_sets(
                    blocks_view(blocks@),
                    line_size as nat,
                )[k],
        decreases blocks@.len() - i,
    {
        assert(blocks_view(blocks@)[i as int] == block_lengths(blocks@[i as int]@));
        sets.push(generate_line_possibilities(&blocks[i], line_size));
        i += 1;
    }
    assert(sets_view(sets@) =~= possibility_sets(blocks_view(blocks@), line_size as nat));
    sets
}

/// A copy of the grid.
fn copy_grid(map: &Vec<Vec<CellPattern>>) -> (copy: Vec<Vec<CellPattern>>)
    ensures
        rows_view(copy@) == rows_view(map@),
{
    let mut copy: Vec<Vec<CellPattern>> = Vec::new();
    let mut i: usize = 0;
    while i < map.len()
        invariant
            i <= map@.len(),
            copy@.len() == i,
            forall|k: int| 0 <= k < i ==> (#[trigger] copy@[k])@ == map@[k]@,
        decreases map@.len() - i,
    {
        let row = map[i].clone();
        assert(row@ =~= map@[i as int]@);
        copy.push(row);
        i += 1;
    }
    assert(rows_view(copy@) =~= rows_view(map@));
    copy
}

/// The text that stands for a cell.
pub open spec fn symbol_of(config: ConfigView, cell: CellPattern) -> Seq<char> {
    match cell {
        CellPattern::Empty => config.empty_symbol,
        CellPattern::Uncertain => config.uncertain_symbol,
        CellPattern::Filled => config.filled_symbol,
    }
}

/// A row of the grid as text: the symbols of its cells, with nothing between them.
pub open spec fn rendered_line(config: ConfigView, line: Seq<CellPattern>) -> Seq<char>
    decreases line.len(),
{
    if line.len() == 0 {
        Seq::empty()
    } else {
        rendered_line(config, line.drop_last()) + symbol_of(config, line.last())
    }
}

/// The grid as text, one line for each row.
pub fn render_map(config: &Config, map: &Vec<Vec<CellPattern>>) -> (lines: Vec<String>)
    ensures
        lines@.len() == map@.len(),
        forall|i: int|
            0 <= i < map@.len() ==> (#[trigger] lines@[i])@ == rendered_line(config@, map@[i]@),
{
    let mut lines: Vec<String> = Vec::new();
    let mut i: usize = 0;
    while i < map.len()
        invariant
            i <= map@.len(),
            lines@.len() == i,
            forall|k: int|
                0 <= k < i ==> (#[trigger] lines@[k])@ == rendered_line(config@, map@[k]@),
        decreases map@.len() - i,
    {
        let row = &map[i];
        let mut text = String::new();
        let mut j: usize = 0;
        assert(row@.take(0) =~= Seq::<CellPattern>::empty());
        while j < row.len()
            invariant
                j <= row@.len(),
                text@ == rendered_line(config@, row@.take(j as int)),
            decreases row@.len() - j,
        {
            let symbol = match row[j] {
                CellPattern::Empty => config.empty_symbol(),
                CellPattern::Uncertain => config.uncertain_symbol(),
                CellPattern::Filled => config.filled_symbol(),
            };
            proof {
                assert(row@.take(j + 1).drop_last() =~= row@.take(j as int));
                assert(row@.take(j + 1).last() == row@[j as int]);
            }
            text.append(symbol);
            j += 1;
        }
        assert(row@.take(j as int) =~= row@);
        lines.push(text);
        i += 1;
    }
    lines
}

/// The result of a solve that met no contradiction.
#[derive(Debug)]
pub struct Solution {
    /// What is known of every cell at the end. Cells that line-by-line reasoning cannot
    /// decide stay `Uncertain`.
    pub grid: Vec<Vec<CellPattern>>,
    /// The grid after each round that changed it, in order, if the configuration asked
    /// for them; else empty.
    pub snapshots: Vec<Vec<Vec<CellPattern>>>,
}

/// The propagation loop. Each round filters the possibilities of the rows by the grid and
/// those of the columns by the transposed grid, takes the patterns of what is left and
/// merges them into the next grid. The loop ends with the first round that fails or
/// leaves the grid as it was. A cell that is proven stays as it is, so there are no more
/// rounds than `map` has uncertain cells.
#[verifier::loop_isolation(false)]
pub fn iterate(
    config: &Config,
    map: Vec<Vec<CellPattern>>,
    rows_possibilities: Vec<Vec<Vec<Cell>>>,
    cols_possibilities: Vec<Vec<Vec<Cell>>>,
) -> (r: Result<Solution, SolveError>)
    ensures
        ({
            let start = Ok::<SolverState, SolveError>(
                SolverState {
                    grid: rows_view(map@),
                    rows: sets_view(rows_possibilities@),
                    cols: sets_view(cols_possibilities@),
                },
            );
            &&& settles(start)
            &&& match r {
                Ok(solution) => {
                    &&& solved(start) == Ok::<Seq<Seq<CellPattern>>, SolveError>(
                        rows_view(solution.grid@),
                    )
                    &&& sets_view(solution.snapshots@) == if config@.process {
                        grids_after(start, rounds(start))
                    } else {
                        Seq::empty()
                    }
                    &&& keeps_proven(rows_view(solution.grid@), rows_view(map@))
                    &&& solution.snapshots@.len() <= uncertain_cells(rows_view(map@))
                },
                Err(e) => solved(start) == Err::<Seq<Seq<CellPattern>>, SolveError>(e),
            }
        }),
{
    let ghost start = Ok::<SolverState, SolveError>(
        SolverState {
            grid: rows_view(map@),
            rows: sets_view(rows_possibilities@),
            cols: sets_view(cols_possibilities@),
        },
    );
    proof {
        lemma_solver_settles(start);
    }
    let mut map = map;
    let mut rows = rows_possibilities;
    let mut cols = cols_possibilities;
    let mut snapshots: Vec<Vec<Vec<CellPattern>>> = Vec::new();
    let ghost mut k: nat = 0;
    assert(sets_view(snapshots@) =~= grids_after(start, 0));
    assert(sets_view(snapshots@) =~= Seq::<Seq<Seq<CellPattern>>>::empty());
    loop
        invariant
            state_after(start, k) == Ok::<SolverState, SolveError>(
                SolverState {
                    grid: rows_view(map@),
                    rows: sets_view(rows@),
                    cols: sets_view(cols@),
                },
            ),
            forall|j: nat| j < k ==> progresses(start, j),
            k > 0 ==> grid_of(sets_view(rows@), sets_view(cols@)) == Ok::<
                Seq<Seq<CellPattern>>,
                SolveError,
            >(rows_view(map@)),
            sets_view(snapshots@) == if config@.process {
                grids_after(start, k)
            } else {
                Seq::empty()
            },
        decreases
                (if k == 0 {
                    1nat
                } else {
                    0nat
                }),
                weight(sets_view(rows@)) + weight(sets_view(cols@)),
    {
        let ghost state = SolverState {
            grid: rows_view(map@),
            rows: sets_view(rows@),
            cols: sets_view(cols@),
        };
        let ghost next = next_state(state);
        assert(state_after(start, k + 1) == next);
        let new_rows = filter_lines_possibilities(&map, &rows);
        let by_cols = match transpose(&map) {
            Err(e) => {
                proof {
                    lemma_settles_once(start, k);
                }
                return Err(e);
            },
            Ok(by_cols) => by_cols,
        };
        let new_cols = filter_lines_possibilities(&by_cols, &cols);
        let row_patterns = match merge_all_lines(&new_rows) {
            Err(e) => {
                proof {
                    lemma_settles_once(start, k);
                }
                return Err(e);
            },
            Ok(patterns) => patterns,
        };
        let col_patterns = match merge_all_lines(&new_cols) {
            Err(e) => {
                proof {
                    lemma_settles_once(start, k);
                }
                return Err(e);
            },
            Ok(patterns) => patterns,
        };
        let new_map = match merge_rows_and_cols(&row_patterns, &col_patterns) {
            Err(e) => {
                proof {
                    lemma_settles_once(start, k);
                }
                return Err(e);
            },
            Ok(new_map) => new_map,
        };
        assert(next == Ok::<SolverState, SolveError>(
            SolverState {
                grid: rows_view(new_map@),
                rows: sets_view(new_rows@),
                cols: sets_view(new_cols@),
            },
        ));
        if has_map_changed(&map, &new_map) {
            assert(progresses(start, k));
            proof {
                lemma_filtered_weight(state.grid, state.rows);
                lemma_filtered_weight(transposed(state.grid), state.cols);
            }
            if config.process() {
                let ghost before = sets_view(snapshots@);
                snapshots.push(copy_grid(&new_map));
                assert(sets_view(snapshots@) =~= before.push(rows_view(new_map@)));
                assert(before.push(rows_view(new_map@)) =~= grids_after(start, k + 1));
            }
            map = new_map;
            rows = new_rows;
            cols = new_cols;
            proof {
                k = k + 1;
            }
        } else {
            proof {
                lemma_settles_once(start, k);
            }
            return Ok(Solution { grid: map, snapshots });
        }
    }
}

/// Solves the puzzle as far as line-by-line reasoning goes: generates the possibilities
/// of every row and column, derives the first grid from them, and runs the propagation
/// loop on it. The solve fails on the first contradiction or shape error it meets.
/// Where the puzzle has a block sequence for each of its rows and columns, the grid is
/// a rectangle of its height and width.
pub fn solve_nonogram(map_info: PuzzleInfo, config: Config) -> (r: Result<Solution, SolveError>)
    ensures
        settles(initial_state(map_info@)),
        match r {
            Ok(solution) => {
                &&& solved(initial_state(map_info@)) == Ok::<Seq<Seq<CellPattern>>, SolveError>(
                    rows_view(solution.grid@),
                )
                &&& sets_view(solution.snapshots@) == if config@.process {
                    grids_after(initial_state(map_info@), rounds(initial_state(map_info@)))
                } else {
                    Seq::empty()
                }
                &&& sizes_match_blocks(map_info@) ==> has_shape(
                    rows_view(solution.grid@),
                    map_info@.height,
                    map_info@.width,
                )
            },
            Err(e) => solved(initial_state(map_info@)) == Err::<Seq<Seq<CellPattern>>, SolveError>(
                e,
            ),
        },
{
    let ghost start = initial_state(map_info@);
    proof {
        lemma_solver_settles(start);
        if sizes_match_blocks(map_info@) && state_after(start, rounds(start)) is Ok {
            lemma_solve_keeps_shape(map_info@, rounds(start));
        }
    }
    let rows_possibilities = generate_all(map_info.row_blocks(), map_info.width());
    let cols_possibilities = generate_all(map_info.col_blocks(), map_info.height());
    let row_patterns = match merge_all_lines(&rows_possibilities) {
        Err(e) => {
            proof {
                lemma_settles_once(start, 0);
            }
            return Err(e);
        },
        Ok(patterns) => patterns,
    };
    let col_patterns = match merge_all_lines(&cols_possibilities) {
        Err(e) => {
            proof {
                lemma_settles_once(start, 0);
            }
            return Err(e);
        },
        Ok(patterns) => patterns,
    };
    let map = match merge_rows_and_cols(&row_patterns, &col_patterns) {
        Err(e) => {
            proof {
                lemma_settles_once(start, 0);
            }
            return Err(e);
        },
        Ok(map) => map,
    };
    iterate(&config, map, rows_possibilities, cols_possibilities)
}

} // verus!
