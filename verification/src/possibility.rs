//! The possibility set of a block sequence in a line, as a mathematical sequence, and
//! what holds of it.

use crate::cell::Cell;
use crate::line::{
    all_positive, fits, leading, lemma_leading_of_run, lemma_leading_splits,
    lemma_min_line_length_step, lemma_no_runs_all_empty, lemma_runs_after_all_empty,
    lemma_runs_after_filled, lemma_runs_skip_empty, min_line_length, run_of, runs, runs_after,
};
use vstd::prelude::*;

verus! {

/// Each line with `prefix` put before it.
pub open spec fn extend_each(prefix: Seq<Cell>, lines: Seq<Seq<Cell>>) -> Seq<Seq<Cell>> {
    Seq::new(lines.len(), |i: int| prefix + lines[i])
}

/// The empty cells that must follow the first block: one where another block follows.
pub open spec fn separator(blocks: Seq<nat>) -> nat {
    if blocks.len() > 1 {
        1
    } else {
        0
    }
}

/// The cells of a line up to where the second block may start, with the first block
/// starting at `start`.
pub open spec fn head_at(blocks: Seq<nat>, start: nat) -> Seq<Cell> {
    run_of(Cell::Empty, start) + run_of(Cell::Filled, blocks[0]) + run_of(
        Cell::Empty,
        separator(blocks),
    )
}

/// The possibility set of `blocks` in a line of `n` cells, ordered by where the first
/// block starts, leftmost first, then in the same way by the blocks that follow.
pub open spec fn possibilities(blocks: Seq<nat>, n: nat) -> Seq<Seq<Cell>>
    decreases blocks.len(), 1nat, 0nat,
{
    if blocks.len() == 0 {
        seq![run_of(Cell::Empty, n)]
    } else if min_line_length(blocks) > n {
        Seq::empty()
    } else {
        starting_before(blocks, n, (n - min_line_length(blocks) + 1) as nat)
    }
}

/// The possibilities whose first block starts before position `k`.
pub open spec fn starting_before(blocks: Seq<nat>, n: nat, k: nat) -> Seq<Seq<Cell>>
    decreases blocks.len(), 0nat, k,
{
    if blocks.len() == 0 || k == 0 {
        Seq::empty()
    } else {
        starting_before(blocks, n, (k - 1) as nat) + starting_at(blocks, n, (k - 1) as nat)
    }
}

/// The possibilities whose first block starts at position `start`.
pub open spec fn starting_at(blocks: Seq<nat>, n: nat, start: nat) -> Seq<Seq<Cell>>
    decreases blocks.len(), 0nat, 0nat,
{
    if blocks.len() == 0 {
        Seq::empty()
    } else {
        extend_each(
            head_at(blocks, start),
            possibilities(blocks.skip(1), (n - start - blocks[0] - separator(blocks)) as nat),
        )
    }
}

/// Putting a prefix before two lists of lines, one after the other.
pub proof fn lemma_extend_each_of_two(prefix: Seq<Cell>, a: Seq<Seq<Cell>>, b: Seq<Seq<Cell>>)
    ensures
        extend_each(prefix, a + b) == extend_each(prefix, a) + extend_each(prefix, b),
{
    assert(extend_each(prefix, a + b) =~= extend_each(prefix, a) + extend_each(prefix, b));
}

/// Putting two prefixes before each line, one after the other.
pub proof fn lemma_extend_each_twice(prefix: Seq<Cell>, head: Seq<Cell>, lines: Seq<Seq<Cell>>)
    ensures
        extend_each(prefix + head, lines) == extend_each(prefix, extend_each(head, lines)),
{
    assert forall|i: int| 0 <= i < lines.len() implies (prefix + head) + lines[i] == prefix + (head
        + lines[i]) by {
        assert((prefix + head) + lines[i] =~= prefix + (head + lines[i]));
    }
    assert(extend_each(prefix + head, lines) =~= extend_each(prefix, extend_each(head, lines)));
}

/// Blocks that need more than `n` cells have no possibility.
pub proof fn lemma_too_long_has_none(blocks: Seq<nat>, n: nat)
    requires
        min_line_length(blocks) > n,
    ensures
        possibilities(blocks, n).len() == 0,
{
}

/// No blocks have exactly one possibility: the line of empty cells.
pub proof fn lemma_no_blocks_has_one(n: nat)
    ensures
        possibilities(Seq::<nat>::empty(), n) == seq![run_of(Cell::Empty, n)],
{
}

/// Every possibility has `n` cells, whatever the blocks are.
pub proof fn lemma_possibilities_length(blocks: Seq<nat>, n: nat)
    ensures
        forall|i: int|
            0 <= i < possibilities(blocks, n).len() ==> (#[trigger] possibilities(blocks, n)[i]).len()
                == n,
    decreases blocks.len(), 1nat, 0nat,
{
    if blocks.len() > 0 && min_line_length(blocks) <= n {
        let k = (n - min_line_length(blocks) + 1) as nat;
        lemma_starting_before_length(blocks, n, k);
        assert(possibilities(blocks, n) == starting_before(blocks, n, k));
    }
}

proof fn lemma_starting_before_length(blocks: Seq<nat>, n: nat, k: nat)
    requires
        blocks.len() > 0,
        k + min_line_length(blocks) <= n + 1,
    ensures
        forall|i: int|
            0 <= i < starting_before(blocks, n, k).len() ==> (#[trigger] starting_before(
                blocks,
                n,
                k,
            )[i]).len() == n,
    decreases blocks.len(), 0nat, k,
{
    if k > 0 {
        let start = (k - 1) as nat;
        let earlier = starting_before(blocks, n, start);
        let last = starting_at(blocks, n, start);
        lemma_starting_before_length(blocks, n, start);
        lemma_min_line_length_step(blocks);
        let room = (n - start - blocks[0] - separator(blocks)) as nat;
        lemma_possibilities_length(blocks.skip(1), room);
        assert(starting_before(blocks, n, k) == earlier + last);
        assert forall|i: int| 0 <= i < (earlier + last).len() implies (#[trigger] (earlier
            + last)[i]).len() == n by {
            if i < earlier.len() {
                assert((earlier + last)[i] == earlier[i]);
            } else {
                let j = i - earlier.len();
                assert((earlier + last)[i] == last[j]);
                assert(last[j] == head_at(blocks, start) + possibilities(blocks.skip(1), room)[j]);
            }
        }
    }
}

/// Every possibility is a line of `n` cells whose runs of filled cells are the blocks.
pub proof fn lemma_possibilities_fit(blocks: Seq<nat>, n: nat)
    requires
        all_positive(blocks),
    ensures
        forall|i: int|
            0 <= i < possibilities(blocks, n).len() ==> fits(
                #[trigger] possibilities(blocks, n)[i],
                blocks,
                n,
            ),
    decreases blocks.len(), 1nat, 0nat,
{
    if blocks.len() == 0 {
        lemma_runs_after_all_empty(n, 0);
        assert(runs(run_of(Cell::Empty, n)) =~= blocks);
    } else if min_line_length(blocks) <= n {
        let k = (n - min_line_length(blocks) + 1) as nat;
        lemma_starting_before_fit(blocks, n, k);
        assert(possibilities(blocks, n) == starting_before(blocks, n, k));
    }
}

proof fn lemma_starting_before_fit(blocks: Seq<nat>, n: nat, k: nat)
    requires
        all_positive(blocks),
        blocks.len() > 0,
        k + min_line_length(blocks) <= n + 1,
    ensures
        forall|i: int|
            0 <= i < starting_before(blocks, n, k).len() ==> fits(
                #[trigger] starting_before(blocks, n, k)[i],
                blocks,
                n,
            ),
    decreases blocks.len(), 0nat, k,
{
    if k > 0 {
        let earlier = starting_before(blocks, n, (k - 1) as nat);
        let last = starting_at(blocks, n, (k - 1) as nat);
        lemma_starting_before_fit(blocks, n, (k - 1) as nat);
        lemma_starting_at_fit(blocks, n, (k - 1) as nat);
        assert(starting_before(blocks, n, k) == earlier + last);
        assert forall|i: int| 0 <= i < (earlier + last).len() implies fits(
            #[trigger] (earlier + last)[i],
            blocks,
            n,
        ) by {
            if i < earlier.len() {
                assert((earlier + last)[i] == earlier[i]);
            } else {
                assert((earlier + last)[i] == last[i - earlier.len()]);
            }
        }
    }
}

proof fn lemma_starting_at_fit(blocks: Seq<nat>, n: nat, start: nat)
    requires
        all_positive(blocks),
        blocks.len() > 0,
        start + min_line_length(blocks) <= n,
    ensures
        forall|i: int|
            0 <= i < starting_at(blocks, n, start).len() ==> fits(
                #[trigger] starting_at(blocks, n, start)[i],
                blocks,
                n,
            ),
    decreases blocks.len(), 0nat, 0nat,
{
    let sep = separator(blocks);
    let later = blocks.skip(1);
    let room = (n - start - blocks[0] - sep) as nat;
    let tails = possibilities(later, room);
    lemma_min_line_length_step(blocks);
    assert(all_positive(later)) by {
        assert forall|i: int| 0 <= i < later.len() implies later[i] > 0 by {
            assert(later[i] == blocks[i + 1]);
        }
    }
    lemma_possibilities_fit(later, room);
    assert forall|i: int| 0 <= i < starting_at(blocks, n, start).len() implies fits(
        #[trigger] starting_at(blocks, n, start)[i],
        blocks,
        n,
    ) by {
        let tail = tails[i];
        assert(fits(tail, later, room));
        lemma_runs_of_placed(blocks, start, tail);
    }
}

/// The runs of a line that is the first block at `start`, then a line for the later blocks.
proof fn lemma_runs_of_placed(blocks: Seq<nat>, start: nat, tail: Seq<Cell>)
    requires
        blocks.len() > 0,
        blocks[0] > 0,
        runs(tail) == blocks.skip(1),
    ensures
        runs(head_at(blocks, start) + tail) == blocks,
{
    let sep = separator(blocks);
    let line = head_at(blocks, start) + tail;
    let gap_and_tail = run_of(Cell::Empty, sep) + tail;
    let from_block = run_of(Cell::Filled, blocks[0]) + gap_and_tail;
    assert(line =~= run_of(Cell::Empty, start) + from_block);
    lemma_runs_skip_empty(start, from_block);
    lemma_runs_after_filled(blocks[0], gap_and_tail, 0);
    assert(runs(line) == runs_after(gap_and_tail, blocks[0]));
    if sep == 1 {
        assert(gap_and_tail[0] == Cell::Empty);
        assert(gap_and_tail.skip(1) =~= tail);
        assert(runs_after(gap_and_tail, blocks[0]) == seq![blocks[0]] + runs(tail));
    } else {
        assert(gap_and_tail =~= tail);
        assert(runs(tail).len() == 0);
        lemma_no_runs_all_empty(tail);
        lemma_runs_after_all_empty(tail.len(), blocks[0]);
    }
    assert(seq![blocks[0]] + blocks.skip(1) =~= blocks);
}

/// A possibility that starts at `start` is among those that start before any later position.
proof fn lemma_starting_before_holds(blocks: Seq<nat>, n: nat, k: nat, start: nat, j: int)
    requires
        blocks.len() > 0,
        start < k,
        0 <= j < starting_at(blocks, n, start).len(),
    ensures
        starting_before(blocks, n, k).contains(starting_at(blocks, n, start)[j]),
    decreases k,
{
    let earlier = starting_before(blocks, n, (k - 1) as nat);
    let last = starting_at(blocks, n, (k - 1) as nat);
    let line = starting_at(blocks, n, start)[j];
    if start == k - 1 {
        assert((earlier + last)[earlier.len() + j] == line);
    } else {
        lemma_starting_before_holds(blocks, n, (k - 1) as nat, start, j);
        let i = choose|i: int| 0 <= i < earlier.len() && earlier[i] == line;
        assert((earlier + last)[i] == line);
    }
}

/// Every line of `n` cells whose runs of filled cells are the blocks is a possibility.
pub proof fn lemma_possibilities_complete(blocks: Seq<nat>, n: nat, line: Seq<Cell>)
    requires
        all_positive(blocks),
        fits(line, blocks, n),
    ensures
        possibilities(blocks, n).contains(line),
    decreases blocks.len(),
{
    if blocks.len() == 0 {
        lemma_no_runs_all_empty(line);
        assert(possibilities(blocks, n)[0] == line);
    } else {
        // The line is empty cells, then the first block, then the rest.
        lemma_leading_splits(line, Cell::Empty);
        let start = leading(line, Cell::Empty);
        let from_block = line.skip(start as int);
        lemma_runs_skip_empty(start, from_block);
        assert(from_block.len() > 0);
        lemma_leading_splits(from_block, Cell::Filled);
        let b = leading(from_block, Cell::Filled);
        let after = from_block.skip(b as int);
        lemma_runs_after_filled(b, after, 0);
        assert(runs_after(after, b) == blocks);
        assert(b > 0);
        let sep = separator(blocks);
        let later = blocks.skip(1);
        assert(all_positive(later)) by {
            assert forall|i: int| 0 <= i < later.len() implies later[i] > 0 by {
                assert(later[i] == blocks[i + 1]);
            }
        }
        // What follows the block: nothing, or an empty cell and a line for the later blocks.
        let tail = if sep == 1 {
            after.skip(1)
        } else {
            after
        };
        if after.len() == 0 {
            assert(blocks =~= seq![b]);
            assert(runs(tail) =~= later);
        } else {
            assert(after[0] == Cell::Empty);
            assert(blocks == seq![b] + runs(after.skip(1)));
            assert(blocks[0] == b);
            assert(later =~= runs(after.skip(1)));
            if sep == 0 {
                lemma_no_runs_all_empty(after.skip(1));
                assert(after =~= run_of(Cell::Empty, after.len())) by {
                    assert forall|i: int| 0 <= i < after.len() implies after[i] == Cell::Empty by {
                        if i > 0 {
                            assert(after[i] == after.skip(1)[i - 1]);
                        }
                    }
                }
                lemma_runs_after_all_empty(after.len(), 0);
                assert(runs(tail) =~= later);
            }
        }
        assert(blocks[0] == b);
        assert(runs(tail) == later);
        assert(after =~= run_of(Cell::Empty, sep) + tail);
        let room = (n - start - b - sep) as nat;
        assert(tail.len() == room);
        assert(line =~= head_at(blocks, start) + tail);
        lemma_possibilities_complete(later, room, tail);
        let tails = possibilities(later, room);
        let j = choose|j: int| 0 <= j < tails.len() && tails[j] == tail;
        lemma_min_line_length_step(blocks);
        assert(min_line_length(later) <= room);
        assert(starting_at(blocks, n, start)[j] == line);
        lemma_starting_before_holds(
            blocks,
            n,
            (n - min_line_length(blocks) + 1) as nat,
            start,
            j,
        );
    }
}

/// No possibility is listed twice.
pub proof fn lemma_possibilities_distinct(blocks: Seq<nat>, n: nat)
    requires
        all_positive(blocks),
    ensures
        possibilities(blocks, n).no_duplicates(),
    decreases blocks.len(), 1nat, 0nat,
{
    if blocks.len() > 0 && min_line_length(blocks) <= n {
        lemma_starting_before_distinct(blocks, n, (n - min_line_length(blocks) + 1) as nat);
    }
}

proof fn lemma_starting_before_distinct(blocks: Seq<nat>, n: nat, k: nat)
    requires
        all_positive(blocks),
        blocks.len() > 0,
    ensures
        starting_before(blocks, n, k).no_duplicates(),
        forall|i: int|
            0 <= i < starting_before(blocks, n, k).len() ==> leading(
                #[trigger] starting_before(blocks, n, k)[i],
                Cell::Empty,
            ) < k,
    decreases blocks.len(), 0nat, k,
{
    if k > 0 {
        lemma_starting_before_distinct(blocks, n, (k - 1) as nat);
        lemma_starting_at_distinct(blocks, n, (k - 1) as nat);
    }
}

proof fn lemma_starting_at_distinct(blocks: Seq<nat>, n: nat, start: nat)
    requires
        all_positive(blocks),
        blocks.len() > 0,
    ensures
        starting_at(blocks, n, start).no_duplicates(),
        forall|i: int|
            0 <= i < starting_at(blocks, n, start).len() ==> leading(
                #[trigger] starting_at(blocks, n, start)[i],
                Cell::Empty,
            ) == start,
    decreases blocks.len(), 0nat, 0nat,
{
    let sep = separator(blocks);
    let later = blocks.skip(1);
    let room = (n - start - blocks[0] - sep) as nat;
    let tails = possibilities(later, room);
    let head = head_at(blocks, start);
    let lines = starting_at(blocks, n, start);
    assert(all_positive(later)) by {
        assert forall|i: int| 0 <= i < later.len() implies later[i] > 0 by {
            assert(later[i] == blocks[i + 1]);
        }
    }
    lemma_possibilities_distinct(later, room);
    assert forall|i: int, j: int| 0 <= i < lines.len() && 0 <= j < lines.len() && i != j implies lines[i]
        != lines[j] by {
        assert((head + tails[i]).skip(head.len() as int) =~= tails[i]);
        assert((head + tails[j]).skip(head.len() as int) =~= tails[j]);
    }
    assert forall|i: int| 0 <= i < lines.len() implies leading(#[trigger] lines[i], Cell::Empty)
        == start by {
        let from_block = run_of(Cell::Filled, blocks[0]) + run_of(Cell::Empty, sep) + tails[i];
        assert(lines[i] =~= run_of(Cell::Empty, start) + from_block);
        assert(from_block[0] == Cell::Filled);
        lemma_leading_of_run(Cell::Empty, start, from_block);
    }
}

/// `a` stands before `b` in the order of the possibilities: in the first cell in which
/// they differ `a` is filled and `b` is empty.
pub open spec fn comes_before(a: Seq<Cell>, b: Seq<Cell>) -> bool {
    exists|k: int|
        0 <= k < a.len() && k < b.len() && #[trigger] a[k] == Cell::Filled && b[k] == Cell::Empty
            && forall|j: int| 0 <= j < k ==> a[j] == b[j]
}

/// The lines are in order: each stands before all that follow it.
pub open spec fn in_order(lines: Seq<Seq<Cell>>) -> bool {
    forall|i: int, j: int|
        0 <= i < j < lines.len() ==> comes_before(#[trigger] lines[i], #[trigger] lines[j])
}

/// The possibilities are listed with the leftmost placement first: each stands before
/// all that follow it.
pub proof fn lemma_possibilities_in_order(blocks: Seq<nat>, n: nat)
    requires
        all_positive(blocks),
    ensures
        in_order(possibilities(blocks, n)),
    decreases blocks.len(), 1nat, 0nat,
{
    if blocks.len() > 0 && min_line_length(blocks) <= n {
        lemma_starting_before_in_order(blocks, n, (n - min_line_length(blocks) + 1) as nat);
    }
}

/// The line has its first filled cell at `start`.
spec fn first_filled_at(line: Seq<Cell>, start: nat) -> bool {
    start < line.len() && line[start as int] == Cell::Filled && forall|j: int|
        0 <= j < start ==> line[j] == Cell::Empty
}

/// The line has its first filled cell before `k`.
spec fn first_filled_before(line: Seq<Cell>, k: nat) -> bool {
    exists|s: nat| s < k && first_filled_at(line, s)
}

proof fn lemma_starting_before_in_order(blocks: Seq<nat>, n: nat, k: nat)
    requires
        all_positive(blocks),
        blocks.len() > 0,
    ensures
        in_order(starting_before(blocks, n, k)),
        forall|i: int|
            0 <= i < starting_before(blocks, n, k).len() ==> first_filled_before(
                #[trigger] starting_before(blocks, n, k)[i],
                k,
            ),
    decreases blocks.len(), 0nat, k,
{
    if k > 0 {
        let start = (k - 1) as nat;
        let earlier = starting_before(blocks, n, start);
        let last = starting_at(blocks, n, start);
        let all = starting_before(blocks, n, k);
        lemma_starting_before_in_order(blocks, n, start);
        lemma_starting_at_in_order(blocks, n, start);
        assert(all == earlier + last);
        assert forall|i: int| 0 <= i < all.len() implies first_filled_before(
            #[trigger] all[i],
            k,
        ) by {
            if i < earlier.len() {
                assert(all[i] == earlier[i]);
                assert(first_filled_before(earlier[i], start));
                let s = choose|s: nat| s < start && first_filled_at(earlier[i], s);
                assert(s < k && first_filled_at(all[i], s));
            } else {
                assert(all[i] == last[i - earlier.len()]);
                assert(start < k && first_filled_at(all[i], start));
            }
        }
        assert forall|i: int, j: int| 0 <= i < j < all.len() implies comes_before(
            #[trigger] all[i],
            #[trigger] all[j],
        ) by {
            if j < earlier.len() {
                assert(all[i] == earlier[i] && all[j] == earlier[j]);
            } else if i >= earlier.len() {
                assert(all[i] == last[i - earlier.len()] && all[j] == last[j - earlier.len()]);
            } else {
                assert(all[i] == earlier[i] && all[j] == last[j - earlier.len()]);
                assert(first_filled_before(earlier[i], start));
                let s = choose|s: nat| s < start && first_filled_at(earlier[i], s);
                assert(first_filled_at(all[j], start));
                assert(all[i][s as int] == Cell::Filled && all[j][s as int] == Cell::Empty);
            }
        }
    }
}

proof fn lemma_starting_at_in_order(blocks: Seq<nat>, n: nat, start: nat)
    requires
        all_positive(blocks),
        blocks.len() > 0,
    ensures
        in_order(starting_at(blocks, n, start)),
        forall|i: int|
            0 <= i < starting_at(blocks, n, start).len() ==> first_filled_at(
                #[trigger] starting_at(blocks, n, start)[i],
                start,
            ),
    decreases blocks.len(), 0nat, 0nat,
{
    let later = blocks.skip(1);
    let room = (n - start - blocks[0] - separator(blocks)) as nat;
    let tails = possibilities(later, room);
    let head = head_at(blocks, start);
    let lines = starting_at(blocks, n, start);
    assert(all_positive(later)) by {
        assert forall|i: int| 0 <= i < later.len() implies later[i] > 0 by {
            assert(later[i] == blocks[i + 1]);
        }
    }
    lemma_possibilities_in_order(later, room);
    assert(head[start as int] == Cell::Filled);
    assert forall|i: int, j: int| 0 <= i < j < lines.len() implies comes_before(
        #[trigger] lines[i],
        #[trigger] lines[j],
    ) by {
        assert(comes_before(tails[i], tails[j]));
        let k = choose|k: int|
            0 <= k < tails[i].len() && k < tails[j].len() && #[trigger] tails[i][k] == Cell::Filled
                && tails[j][k] == Cell::Empty && forall|m: int|
                0 <= m < k ==> tails[i][m] == tails[j][m];
        let at = head.len() + k;
        assert(lines[i][at] == tails[i][k]);
        assert(lines[j][at] == tails[j][k]);
        assert forall|m: int| 0 <= m < at implies lines[i][m] == lines[j][m] by {
            if m >= head.len() {
                assert(lines[i][m] == tails[i][m - head.len()]);
                assert(lines[j][m] == tails[j][m - head.len()]);
            }
        }
    }
}

} // verus!
