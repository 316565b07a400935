//! What filtering and a round of the solver can and cannot change, and why the solver
//! comes to an end.

use crate::cell::{Cell, CellPattern};
use crate::error::SolveError;
use crate::grid::{is_rectangular, transposed};
use crate::propagation::{
    compatible, cross_merged, filtered, grids_differ, lemma_settles_once, lemma_surviving_none,
    lemma_surviving_push, line_pattern, matches_pattern, merged_cell, next_state, patterns_of,
    progresses, rounds, settles, settles_at, state_after, surviving, SolverState,
};
use vstd::prelude::*;

verus! {

/// The size of a family of possibility sets: its lines and all their possibilities.
pub open spec fn weight(sets: Seq<Seq<Seq<Cell>>>) -> nat
    decreases sets.len(),
{
    if sets.len() == 0 {
        0
    } else {
        weight(sets.drop_last()) + 1 + sets.last().len()
    }
}

/// Filtering never makes a possibility set larger.
pub proof fn lemma_surviving_length(lines: Seq<Seq<Cell>>, pattern: Seq<CellPattern>)
    ensures
        surviving(lines, pattern).len() <= lines.len(),
        surviving(lines, pattern).len() == lines.len() ==> surviving(lines, pattern) == lines,
    decreases lines.len(),
{
    if lines.len() == 0 {
        lemma_surviving_none(pattern);
        assert(lines =~= Seq::<Seq<Cell>>::empty());
    } else {
        let earlier = lines.drop_last();
        assert(lines =~= earlier.push(lines.last()));
        lemma_surviving_push(earlier, lines.last(), pattern);
        lemma_surviving_length(earlier, pattern);
    }
}

/// A family that is line by line no larger than another weighs no more, and weighs the
/// same only if it has as many lines and each set is as large.
pub proof fn lemma_weight_monotone(a: Seq<Seq<Seq<Cell>>>, b: Seq<Seq<Seq<Cell>>>)
    requires
        a.len() <= b.len(),
        forall|i: int| 0 <= i < a.len() ==> (#[trigger] a[i]).len() <= b[i].len(),
    ensures
        weight(a) <= weight(b),
        weight(a) == weight(b) ==> a.len() == b.len() && forall|i: int|
            0 <= i < a.len() ==> (#[trigger] a[i]).len() == b[i].len(),
    decreases b.len(),
{
    if b.len() == 0 {
    } else if a.len() == b.len() {
        lemma_weight_monotone(a.drop_last(), b.drop_last());
        assert(a.last().len() <= b.last().len());
        if weight(a) == weight(b) {
            assert forall|i: int| 0 <= i < a.len() implies (#[trigger] a[i]).len() == b[i].len() by {
                if i < a.len() - 1 {
                    assert(a.drop_last()[i] == a[i]);
                    assert(b.drop_last()[i] == b[i]);
                }
            }
        }
    } else {
        assert forall|i: int| 0 <= i < a.len() implies (#[trigger] a[i]).len() <= b.drop_last()[i].len() by {
            assert(b.drop_last()[i] == b[i]);
        }
        lemma_weight_monotone(a, b.drop_last());
    }
}

/// Filtering never adds weight; where it takes none away, it changes nothing.
pub proof fn lemma_filtered_weight(patterns: Seq<Seq<CellPattern>>, sets: Seq<Seq<Seq<Cell>>>)
    ensures
        weight(filtered(patterns, sets)) <= weight(sets),
        weight(filtered(patterns, sets)) == weight(sets) ==> filtered(patterns, sets) == sets,
{
    let kept = filtered(patterns, sets);
    assert forall|i: int| 0 <= i < kept.len() implies (#[trigger] kept[i]).len() <= sets[i].len() by {
        lemma_surviving_length(sets[i], patterns[i]);
    }
    lemma_weight_monotone(kept, sets);
    if weight(kept) == weight(sets) {
        assert forall|i: int| 0 <= i < kept.len() implies kept[i] == sets[i] by {
            lemma_surviving_length(sets[i], patterns[i]);
        }
        assert(kept =~= sets);
    }
}

/// `finer` proves every cell that `coarser` proves, and in the same way.
pub open spec fn at_least_as_certain(finer: Seq<CellPattern>, coarser: Seq<CellPattern>) -> bool {
    coarser.len() <= finer.len() && forall|j: int|
        0 <= j < coarser.len() && (#[trigger] coarser[j]).is_known() ==> finer[j] == coarser[j]
}

/// Filtering the possibility sets by any grid leaves no set larger than it was, and
/// adds no set.
pub proof fn lemma_filtering_never_grows(patterns: Seq<Seq<CellPattern>>, sets: Seq<Seq<Seq<Cell>>>)
    ensures
        filtered(patterns, sets).len() <= sets.len(),
        forall|i: int|
            0 <= i < filtered(patterns, sets).len() ==> (#[trigger] filtered(patterns, sets)[i]).len()
                <= sets[i].len(),
{
    let kept = filtered(patterns, sets);
    assert forall|i: int| 0 <= i < kept.len() implies (#[trigger] kept[i]).len() <= sets[i].len() by {
        lemma_surviving_length(sets[i], patterns[i]);
    }
}

/// A possibility that matches a pattern matches every pattern that is less certain.
pub proof fn lemma_matches_less_certain(
    line: Seq<Cell>,
    finer: Seq<CellPattern>,
    coarser: Seq<CellPattern>,
)
    requires
        at_least_as_certain(finer, coarser),
        matches_pattern(line, finer),
    ensures
        matches_pattern(line, coarser),
{
    assert forall|j: int| 0 <= j < line.len() && j < coarser.len() implies compatible(
        line[j],
        coarser[j],
    ) by {
        assert(compatible(line[j], finer[j]));
        if coarser[j].is_known() {
            assert(finer[j] == coarser[j]);
        }
    }
}

/// Filtering by a pattern and then by a more certain one gives what the more certain
/// pattern gives alone, which is no more than what the first gave.
pub proof fn lemma_filter_by_more_certain(
    lines: Seq<Seq<Cell>>,
    coarser: Seq<CellPattern>,
    finer: Seq<CellPattern>,
)
    requires
        at_least_as_certain(finer, coarser),
    ensures
        surviving(surviving(lines, coarser), finer) == surviving(lines, finer),
        surviving(lines, finer).len() <= surviving(lines, coarser).len() <= lines.len(),
    decreases lines.len(),
{
    lemma_surviving_length(lines, coarser);
    lemma_surviving_length(surviving(lines, coarser), finer);
    if lines.len() == 0 {
        lemma_surviving_none(coarser);
        lemma_surviving_none(finer);
        assert(lines =~= Seq::<Seq<Cell>>::empty());
    } else {
        let earlier = lines.drop_last();
        let last = lines.last();
        assert(lines =~= earlier.push(last));
        lemma_filter_by_more_certain(earlier, coarser, finer);
        lemma_surviving_push(earlier, last, coarser);
        lemma_surviving_push(earlier, last, finer);
        lemma_surviving_push(surviving(earlier, coarser), last, finer);
        if matches_pattern(last, finer) {
            lemma_matches_less_certain(last, finer, coarser);
        }
    }
}

/// What is left after filtering matches the pattern.
pub proof fn lemma_survivors_match(lines: Seq<Seq<Cell>>, pattern: Seq<CellPattern>)
    ensures
        forall|i: int|
            0 <= i < surviving(lines, pattern).len() ==> matches_pattern(
                #[trigger] surviving(lines, pattern)[i],
                pattern,
            ),
    decreases lines.len(),
{
    if lines.len() == 0 {
        lemma_surviving_none(pattern);
        assert(lines =~= Seq::<Seq<Cell>>::empty());
    } else {
        let earlier = lines.drop_last();
        assert(lines =~= earlier.push(lines.last()));
        lemma_surviving_push(earlier, lines.last(), pattern);
        lemma_survivors_match(earlier, pattern);
    }
}

/// The pattern of what is left after filtering by a pattern repeats every proven cell
/// of that pattern.
pub proof fn lemma_pattern_of_survivors(lines: Seq<Seq<Cell>>, pattern: Seq<CellPattern>, j: int)
    requires
        line_pattern(surviving(lines, pattern)) is Ok,
        0 <= j < line_pattern(surviving(lines, pattern))->Ok_0.len(),
        j < pattern.len(),
        pattern[j].is_known(),
    ensures
        line_pattern(surviving(lines, pattern))->Ok_0[j] == pattern[j],
{
    let kept = surviving(lines, pattern);
    let column = transposed(kept)[j];
    lemma_survivors_match(lines, pattern);
    assert forall|i: int| 0 <= i < column.len() implies (#[trigger] column[i]).pattern()
        == pattern[j] by {
        assert(matches_pattern(kept[i], pattern));
        assert(kept[i].len() == kept[0].len());
        assert(compatible(kept[i][j], pattern[j]));
    }
    assert(column[0].pattern() == pattern[j]);
}

/// The patterns of a family of sets are the patterns of its sets, in order.
pub proof fn lemma_patterns_of_each(sets: Seq<Seq<Seq<Cell>>>)
    requires
        patterns_of(sets) is Ok,
    ensures
        patterns_of(sets)->Ok_0.len() == sets.len(),
        forall|i: int|
            0 <= i < sets.len() ==> line_pattern(#[trigger] sets[i]) == Ok::<
                Seq<CellPattern>,
                SolveError,
            >(patterns_of(sets)->Ok_0[i]),
    decreases sets.len(),
{
    if sets.len() > 0 {
        lemma_patterns_of_each(sets.drop_last());
        assert forall|i: int| 0 <= i < sets.len() implies line_pattern(#[trigger] sets[i]) == Ok::<
            Seq<CellPattern>,
            SolveError,
        >(patterns_of(sets)->Ok_0[i]) by {
            if i < sets.len() - 1 {
                assert(sets.drop_last()[i] == sets[i]);
            }
        }
    }
}

/// A round keeps what is proven: a cell that is empty or filled before the round is
/// the same after it.
pub proof fn lemma_known_cells_stay(s: SolverState, i: int, j: int)
    requires
        next_state(s) is Ok,
        0 <= i < s.grid.len(),
        0 <= j < s.grid[i].len(),
        i < next_state(s)->Ok_0.grid.len(),
        j < next_state(s)->Ok_0.grid[i].len(),
        s.grid[i][j].is_known(),
    ensures
        next_state(s)->Ok_0.grid[i][j] == s.grid[i][j],
{
    let rows = filtered(s.grid, s.rows);
    let cols = filtered(transposed(s.grid), s.cols);
    let row_patterns = patterns_of(rows)->Ok_0;
    let col_patterns = patterns_of(cols)->Ok_0;
    lemma_patterns_of_each(rows);
    lemma_patterns_of_each(cols);
    assert(cross_merged(row_patterns, col_patterns) is Ok);
    assert(is_rectangular(col_patterns));
    assert(col_patterns[j].len() == col_patterns[0].len());
    assert(rows[i] == surviving(s.rows[i], s.grid[i]));
    assert(cols[j] == surviving(s.cols[j], transposed(s.grid)[j]));
    assert(s.grid[i].len() == s.grid[0].len());
    assert(transposed(s.grid)[j][i] == s.grid[i][j]);
    lemma_pattern_of_survivors(s.rows[i], s.grid[i], j);
    lemma_pattern_of_survivors(s.cols[j], transposed(s.grid)[j], i);
    assert(row_patterns[i][j] == s.grid[i][j]);
    assert(col_patterns[j][i] == s.grid[i][j]);
    assert(merged_cell(row_patterns, col_patterns, i, j) == Ok::<CellPattern, SolveError>(
        s.grid[i][j],
    ));
}

/// `later` lies within `earlier` and repeats every cell that `earlier` proves.
pub open spec fn keeps_proven(later: Seq<Seq<CellPattern>>, earlier: Seq<Seq<CellPattern>>) -> bool {
    &&& later.len() <= earlier.len()
    &&& forall|i: int| 0 <= i < later.len() ==> (#[trigger] later[i]).len() <= earlier[i].len()
    &&& forall|i: int, j: int|
        0 <= i < later.len() && 0 <= j < later[i].len() && (#[trigger] earlier[i][j]).is_known()
            ==> later[i][j] == earlier[i][j]
}

/// `later` proves a cell that `earlier` leaves uncertain.
pub open spec fn proves_more(later: Seq<Seq<CellPattern>>, earlier: Seq<Seq<CellPattern>>) -> bool {
    exists|i: int, j: int|
        0 <= i < later.len() && i < earlier.len() && 0 <= j < later[i].len() && j
            < earlier[i].len() && !(#[trigger] earlier[i][j]).is_known() && (
        #[trigger] later[i][j]).is_known()
}

/// The number of cells of a line that are not proven.
pub open spec fn uncertain_in(line: Seq<CellPattern>) -> nat
    decreases line.len(),
{
    if line.len() == 0 {
        0
    } else if line.last() == CellPattern::Uncertain {
        uncertain_in(line.drop_last()) + 1
    } else {
        uncertain_in(line.drop_last())
    }
}

/// The number of cells of a grid that are not proven.
pub open spec fn uncertain_cells(grid: Seq<Seq<CellPattern>>) -> nat
    decreases grid.len(),
{
    if grid.len() == 0 {
        0
    } else {
        uncertain_cells(grid.drop_last()) + uncertain_in(grid.last())
    }
}

/// The grid after a round lies within the grid before it and keeps what that proves.
pub proof fn lemma_round_keeps_proven(s: SolverState)
    requires
        next_state(s) is Ok,
    ensures
        keeps_proven(next_state(s)->Ok_0.grid, s.grid),
{
    let t = next_state(s)->Ok_0;
    let rows = filtered(s.grid, s.rows);
    let cols = filtered(transposed(s.grid), s.cols);
    lemma_patterns_of_each(rows);
    lemma_patterns_of_each(cols);
    assert forall|i: int| 0 <= i < t.grid.len() implies (#[trigger] t.grid[i]).len()
        <= s.grid[i].len() by {
        assert(s.grid[i].len() == s.grid[0].len());
    }
    assert forall|i: int, j: int|
        0 <= i < t.grid.len() && 0 <= j < t.grid[i].len() && (
        #[trigger] s.grid[i][j]).is_known() implies t.grid[i][j] == s.grid[i][j] by {
        assert(t.grid[i].len() <= s.grid[i].len());
        lemma_known_cells_stay(s, i, j);
    }
}

/// A round that changes the grid proves a cell that was uncertain before it.
pub proof fn lemma_changing_round_proves_more(s: SolverState)
    requires
        next_state(s) is Ok,
        grids_differ(s.grid, next_state(s)->Ok_0.grid),
    ensures
        proves_more(next_state(s)->Ok_0.grid, s.grid),
{
    let t = next_state(s)->Ok_0;
    lemma_round_keeps_proven(s);
    let (i, j) = choose|i: int, j: int|
        0 <= i < s.grid.len() && i < t.grid.len() && 0 <= j < s.grid[i].len() && j
            < t.grid[i].len() && #[trigger] s.grid[i][j] != #[trigger] t.grid[i][j];
    assert(!s.grid[i][j].is_known());
    assert(t.grid[i][j].is_known());
}

/// A line that keeps what another proves has no more uncertain cells, and fewer if it
/// proves one more.
proof fn lemma_uncertain_in_line(later: Seq<CellPattern>, earlier: Seq<CellPattern>)
    requires
        later.len() <= earlier.len(),
        forall|j: int|
            0 <= j < later.len() && (#[trigger] earlier[j]).is_known() ==> later[j] == earlier[j],
    ensures
        uncertain_in(later) <= uncertain_in(earlier),
        (exists|j: int|
            0 <= j < later.len() && !(#[trigger] earlier[j]).is_known() && later[j].is_known())
            ==> uncertain_in(later) < uncertain_in(earlier),
    decreases earlier.len(),
{
    if earlier.len() == 0 {
    } else if later.len() == earlier.len() {
        let l = later.drop_last();
        let e = earlier.drop_last();
        assert forall|j: int| 0 <= j < l.len() && (#[trigger] e[j]).is_known() implies l[j]
            == e[j] by {
            assert(e[j] == earlier[j]);
        }
        lemma_uncertain_in_line(l, e);
        if exists|j: int|
            0 <= j < later.len() && !(#[trigger] earlier[j]).is_known() && later[j].is_known() {
            let j = choose|j: int|
                0 <= j < later.len() && !(#[trigger] earlier[j]).is_known() && later[j].is_known();
            if j < later.len() - 1 {
                assert(!e[j].is_known() && l[j].is_known());
            }
        }
    } else {
        let e = earlier.drop_last();
        assert forall|j: int| 0 <= j < later.len() && (#[trigger] e[j]).is_known() implies later[j]
            == e[j] by {
            assert(e[j] == earlier[j]);
        }
        lemma_uncertain_in_line(later, e);
        if exists|j: int|
            0 <= j < later.len() && !(#[trigger] earlier[j]).is_known() && later[j].is_known() {
            let j = choose|j: int|
                0 <= j < later.len() && !(#[trigger] earlier[j]).is_known() && later[j].is_known();
            assert(!e[j].is_known() && later[j].is_known());
        }
    }
}

/// A grid that keeps what another proves has no more uncertain cells, and fewer if it
/// proves one more.
pub proof fn lemma_uncertain_cells(later: Seq<Seq<CellPattern>>, earlier: Seq<Seq<CellPattern>>)
    requires
        keeps_proven(later, earlier),
    ensures
        uncertain_cells(later) <= uncertain_cells(earlier),
        proves_more(later, earlier) ==> uncertain_cells(later) < uncertain_cells(earlier),
    decreases earlier.len(),
{
    if earlier.len() == 0 {
    } else if later.len() == earlier.len() {
        let l = later.drop_last();
        let e = earlier.drop_last();
        let last = later.len() - 1;
        assert(keeps_proven(l, e)) by {
            assert forall|i: int| 0 <= i < l.len() implies (#[trigger] l[i]).len() <= e[i].len() by {
                assert(l[i] == later[i]);
                assert(e[i] == earlier[i]);
            }
            assert forall|i: int, j: int|
                0 <= i < l.len() && 0 <= j < l[i].len() && (
                #[trigger] e[i][j]).is_known() implies l[i][j] == e[i][j] by {
                assert(l[i] == later[i]);
                assert(e[i] == earlier[i]);
                assert(earlier[i][j].is_known());
            }
        }
        lemma_uncertain_cells(l, e);
        assert(later[last].len() <= earlier[last].len());
        assert forall|j: int|
            0 <= j < later[last].len() && (#[trigger] earlier[last][j]).is_known() implies later[last][j]
            == earlier[last][j] by {}
        lemma_uncertain_in_line(later[last], earlier[last]);
        if proves_more(later, earlier) {
            let (i, j) = choose|i: int, j: int|
                0 <= i < later.len() && i < earlier.len() && 0 <= j < later[i].len() && j
                    < earlier[i].len() && !(#[trigger] earlier[i][j]).is_known() && (
                #[trigger] later[i][j]).is_known();
            if i < last {
                assert(l[i] == later[i]);
                assert(e[i] == earlier[i]);
                assert(!e[i][j].is_known() && l[i][j].is_known());
                assert(proves_more(l, e));
            } else {
                assert(!earlier[last][j].is_known() && later[last][j].is_known());
            }
        }
    } else {
        let e = earlier.drop_last();
        assert(keeps_proven(later, e)) by {
            assert forall|i: int| 0 <= i < later.len() implies (#[trigger] later[i]).len()
                <= e[i].len() by {
                assert(e[i] == earlier[i]);
            }
            assert forall|i: int, j: int|
                0 <= i < later.len() && 0 <= j < later[i].len() && (
                #[trigger] e[i][j]).is_known() implies later[i][j] == e[i][j] by {
                assert(e[i] == earlier[i]);
                assert(earlier[i][j].is_known());
            }
        }
        lemma_uncertain_cells(later, e);
        if proves_more(later, earlier) {
            let (i, j) = choose|i: int, j: int|
                0 <= i < later.len() && i < earlier.len() && 0 <= j < later[i].len() && j
                    < earlier[i].len() && !(#[trigger] earlier[i][j]).is_known() && (
                #[trigger] later[i][j]).is_known();
            assert(e[i] == earlier[i]);
            assert(!e[i][j].is_known() && later[i][j].is_known());
            assert(proves_more(later, e));
        }
    }
}

/// While every round changes the grid, each round leaves at least one uncertain cell
/// fewer than the one before.
pub proof fn lemma_progress_uses_uncertain_cells(start: Result<SolverState, SolveError>, k: nat)
    requires
        start is Ok,
        forall|j: nat| j < k ==> progresses(start, j),
    ensures
        state_after(start, k) is Ok,
        uncertain_cells(state_after(start, k)->Ok_0.grid) + k <= uncertain_cells(start->Ok_0.grid),
        keeps_proven(state_after(start, k)->Ok_0.grid, start->Ok_0.grid),
    decreases k,
{
    if k > 0 {
        let before = (k - 1) as nat;
        assert forall|j: nat| j < before implies progresses(start, j) by {}
        lemma_progress_uses_uncertain_cells(start, before);
        assert(progresses(start, before));
        let s = state_after(start, before)->Ok_0;
        let t = state_after(start, k)->Ok_0;
        assert(next_state(s) == Ok::<SolverState, SolveError>(t));
        lemma_round_keeps_proven(s);
        lemma_changing_round_proves_more(s);
        lemma_uncertain_cells(t.grid, s.grid);
        lemma_keeps_proven_twice(t.grid, s.grid, start->Ok_0.grid);
    } else {
        let g = start->Ok_0.grid;
        assert(keeps_proven(g, g));
    }
}

/// What lies within a grid that lies within a third, each keeping what the other proves,
/// keeps what the third proves.
pub proof fn lemma_keeps_proven_twice(
    last: Seq<Seq<CellPattern>>,
    middle: Seq<Seq<CellPattern>>,
    first: Seq<Seq<CellPattern>>,
)
    requires
        keeps_proven(last, middle),
        keeps_proven(middle, first),
    ensures
        keeps_proven(last, first),
{
    assert forall|i: int| 0 <= i < last.len() implies (#[trigger] last[i]).len()
        <= first[i].len() by {
        assert(last[i].len() <= middle[i].len());
        assert(middle[i].len() <= first[i].len());
    }
    assert forall|i: int, j: int|
        0 <= i < last.len() && 0 <= j < last[i].len() && (
        #[trigger] first[i][j]).is_known() implies last[i][j] == first[i][j] by {
        assert(last[i].len() <= middle[i].len());
        assert(middle[i][j] == first[i][j]);
        assert(middle[i][j].is_known());
    }
}

/// The solver comes to an end from every state, after no more rounds than the first
/// grid has uncertain cells, and its last grid keeps whatever the first grid proves.
pub proof fn lemma_solver_settles(start: Result<SolverState, SolveError>)
    ensures
        settles(start),
        start matches Ok(s) ==> rounds(start) <= uncertain_cells(s.grid),
        start matches Ok(s) ==> state_after(start, rounds(start)) is Ok && keeps_proven(
            state_after(start, rounds(start))->Ok_0.grid,
            s.grid,
        ),
{
    match start {
        Err(_) => {
            lemma_settles_once(start, 0);
        },
        Ok(s) => {
            let k = lemma_first_round_without_progress(start, 0);
            lemma_settles_once(start, k);
            lemma_progress_uses_uncertain_cells(start, k);
        },
    }
}

/// The first round from `k` on that does not change the grid.
proof fn lemma_first_round_without_progress(start: Result<SolverState, SolveError>, k: nat) -> (r: nat)
    requires
        start is Ok,
        forall|j: nat| j < k ==> progresses(start, j),
    ensures
        settles_at(start, r),
    decreases uncertain_cells(start->Ok_0.grid) + 1 - k,
{
    lemma_progress_uses_uncertain_cells(start, k);
    if progresses(start, k) {
        assert forall|j: nat| j < k + 1 implies progresses(start, j) by {}
        lemma_progress_uses_uncertain_cells(start, k + 1);
        lemma_first_round_without_progress(start, k + 1)
    } else {
        k
    }
}

} // verus!
