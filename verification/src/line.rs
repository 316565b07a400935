//! The mathematics of one line: runs of filled cells, and the shortest line that a
//! block sequence fits in.

use crate::cell::Cell;
use vstd::prelude::*;

verus! {

/// The block lengths as mathematical numbers.
pub open spec fn block_lengths(blocks: Seq<usize>) -> Seq<nat> {
    Seq::new(blocks.len(), |i: int| blocks[i] as nat)
}

/// Every block has at least one cell.
pub open spec fn all_positive(blocks: Seq<nat>) -> bool {
    forall|i: int| 0 <= i < blocks.len() ==> blocks[i] > 0
}

/// `n` cells that all hold `c`.
pub open spec fn run_of(c: Cell, n: nat) -> Seq<Cell> {
    Seq::new(n, |i: int| c)
}

/// The sum of the block lengths.
pub open spec fn total(blocks: Seq<nat>) -> nat
    decreases blocks.len(),
{
    if blocks.len() == 0 {
        0
    } else {
        blocks[0] + total(blocks.skip(1))
    }
}

/// The length of the shortest line that holds the blocks in order with one empty cell
/// between neighbours; 0 where there is no block.
pub open spec fn min_line_length(blocks: Seq<nat>) -> nat {
    if blocks.len() == 0 {
        0
    } else {
        (total(blocks) + blocks.len() - 1) as nat
    }
}

/// The lengths of the maximal runs of filled cells in `line`, left to right, where
/// `open` filled cells stand directly before the line.
pub open spec fn runs_after(line: Seq<Cell>, open: nat) -> Seq<nat>
    decreases line.len(),
{
    let closed = if open > 0 {
        seq![open]
    } else {
        Seq::<nat>::empty()
    };
    if line.len() == 0 {
        closed
    } else if line[0] == Cell::Filled {
        runs_after(line.skip(1), open + 1)
    } else {
        closed + runs_after(line.skip(1), 0)
    }
}

/// The lengths of the maximal runs of filled cells in `line`, left to right.
pub open spec fn runs(line: Seq<Cell>) -> Seq<nat> {
    runs_after(line, 0)
}

/// `line` is a line of `n` cells whose runs are exactly `blocks`.
pub open spec fn fits(line: Seq<Cell>, blocks: Seq<nat>, n: nat) -> bool {
    line.len() == n && runs(line) == blocks
}

pub proof fn lemma_min_line_length_step(blocks: Seq<nat>)
    requires
        blocks.len() > 0,
    ensures
        blocks.len() == 1 ==> min_line_length(blocks) == blocks[0],
        blocks.len() > 1 ==> min_line_length(blocks) == blocks[0] + 1 + min_line_length(
            blocks.skip(1),
        ),
{
    if blocks.len() == 1 {
        assert(blocks.skip(1).len() == 0);
        assert(total(blocks.skip(1)) == 0);
    }
}

pub proof fn lemma_total_of_suffix(blocks: Seq<nat>, i: int)
    requires
        0 <= i <= blocks.len(),
    ensures
        total(blocks.skip(i)) <= total(blocks),
    decreases i,
{
    if i == 0 {
        assert(blocks.skip(0) =~= blocks);
    } else {
        lemma_total_of_suffix(blocks.skip(1), i - 1);
        assert(blocks.skip(1).skip(i - 1) =~= blocks.skip(i));
    }
}

/// Leading empty cells add no run.
pub proof fn lemma_runs_skip_empty(s: nat, rest: Seq<Cell>)
    ensures
        runs(run_of(Cell::Empty, s) + rest) == runs(rest),
    decreases s,
{
    let line = run_of(Cell::Empty, s) + rest;
    if s == 0 {
        assert(line =~= rest);
    } else {
        assert(line[0] == Cell::Empty);
        assert(line.skip(1) =~= run_of(Cell::Empty, (s - 1) as nat) + rest);
        lemma_runs_skip_empty((s - 1) as nat, rest);
    }
}

/// Leading filled cells lengthen the run that is open.
pub proof fn lemma_runs_after_filled(b: nat, rest: Seq<Cell>, open: nat)
    ensures
        runs_after(run_of(Cell::Filled, b) + rest, open) == runs_after(rest, open + b),
    decreases b,
{
    let line = run_of(Cell::Filled, b) + rest;
    if b == 0 {
        assert(line =~= rest);
    } else {
        assert(line[0] == Cell::Filled);
        assert(line.skip(1) =~= run_of(Cell::Filled, (b - 1) as nat) + rest);
        lemma_runs_after_filled((b - 1) as nat, rest, open + 1);
    }
}

/// A line of empty cells only closes the run that is open.
pub proof fn lemma_runs_after_all_empty(m: nat, open: nat)
    ensures
        runs_after(run_of(Cell::Empty, m), open) == if open > 0 {
            seq![open]
        } else {
            Seq::<nat>::empty()
        },
    decreases m,
{
    let line = run_of(Cell::Empty, m);
    if m > 0 {
        assert(line[0] == Cell::Empty);
        assert(line.skip(1) =~= run_of(Cell::Empty, (m - 1) as nat));
        lemma_runs_after_all_empty((m - 1) as nat, 0);
        let closed = if open > 0 {
            seq![open]
        } else {
            Seq::<nat>::empty()
        };
        assert(closed + Seq::<nat>::empty() =~= closed);
    }
}

/// A line without a run holds empty cells only.
pub proof fn lemma_no_runs_all_empty(line: Seq<Cell>)
    requires
        runs(line).len() == 0,
    ensures
        line == run_of(Cell::Empty, line.len()),
    decreases line.len(),
{
    if line.len() > 0 {
        if line[0] == Cell::Filled {
            lemma_runs_after_nonempty(line.skip(1), 1);
        } else {
            assert(Seq::<nat>::empty() + runs_after(line.skip(1), 0) =~= runs_after(line.skip(1), 0));
            lemma_no_runs_all_empty(line.skip(1));
            assert forall|i: int| 0 <= i < line.len() implies line[i] == Cell::Empty by {
                if i > 0 {
                    assert(line[i] == line.skip(1)[i - 1]);
                }
            }
            assert(line =~= run_of(Cell::Empty, line.len()));
        }
    } else {
        assert(line =~= run_of(Cell::Empty, line.len()));
    }
}

/// An open run is counted, whatever follows.
pub proof fn lemma_runs_after_nonempty(line: Seq<Cell>, open: nat)
    requires
        open > 0,
    ensures
        runs_after(line, open).len() > 0,
        runs_after(line, open)[0] >= open,
    decreases line.len(),
{
    if line.len() > 0 && line[0] == Cell::Filled {
        lemma_runs_after_nonempty(line.skip(1), open + 1);
    }
}

/// The number of cells at the start of `line` that hold `c`.
pub open spec fn leading(line: Seq<Cell>, c: Cell) -> nat
    decreases line.len(),
{
    if line.len() > 0 && line[0] == c {
        1 + leading(line.skip(1), c)
    } else {
        0
    }
}

/// A line is its leading cells of one kind, then the rest, which starts with the other kind.
pub proof fn lemma_leading_splits(line: Seq<Cell>, c: Cell)
    ensures
        leading(line, c) <= line.len(),
        line == run_of(c, leading(line, c)) + line.skip(leading(line, c) as int),
        leading(line, c) < line.len() ==> line[leading(line, c) as int] != c,
    decreases line.len(),
{
    let k = leading(line, c);
    if line.len() > 0 && line[0] == c {
        let tail = line.skip(1);
        lemma_leading_splits(tail, c);
        let kt = leading(tail, c);
        assert(tail.skip(kt as int) =~= line.skip(k as int));
        assert forall|i: int| 0 <= i < line.len() implies line[i] == (run_of(c, k) + line.skip(
            k as int,
        ))[i] by {
            if 0 < i {
                assert(line[i] == tail[i - 1]);
                assert(tail[i - 1] == (run_of(c, kt) + tail.skip(kt as int))[i - 1]);
            }
        }
        assert(line =~= run_of(c, k) + line.skip(k as int));
        if k < line.len() {
            assert(line[k as int] == tail[kt as int]);
        }
    } else {
        assert(line =~= run_of(c, 0) + line.skip(0));
    }
}

/// A run of one kind before cells that start with the other kind is the whole leading run.
pub proof fn lemma_leading_of_run(c: Cell, s: nat, rest: Seq<Cell>)
    requires
        rest.len() == 0 || rest[0] != c,
    ensures
        leading(run_of(c, s) + rest, c) == s,
    decreases s,
{
    let line = run_of(c, s) + rest;
    if s == 0 {
        assert(line =~= rest);
    } else {
        assert(line[0] == c);
        assert(line.skip(1) =~= run_of(c, (s - 1) as nat) + rest);
        lemma_leading_of_run(c, (s - 1) as nat, rest);
    }
}

} // verus!
