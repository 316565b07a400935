//! Every way of laying a block sequence into a line.

use crate::cell::Cell;
use crate::grid::rows_view;
use crate::line::{
    all_positive, block_lengths, fits, lemma_min_line_length_step, lemma_total_of_suffix,
    min_line_length, run_of, total,
};
use crate::possibility::{
    extend_each, head_at, in_order, lemma_extend_each_of_two, lemma_extend_each_twice,
    lemma_possibilities_complete,
    lemma_possibilities_distinct, lemma_possibilities_fit, lemma_possibilities_in_order,
    lemma_possibilities_length, possibilities, separator, starting_at, starting_before,
};
use vstd::prelude::*;

verus! {

/// Appends `n` cells that hold `c`.
fn push_run(line: &mut Vec<Cell>, c: Cell, n: usize)
    ensures
        final(line)@ == old(line)@ + run_of(c, n as nat),
{
    let mut i: usize = 0;
    while i < n
        invariant
            i <= n,
            line@ == old(line)@ + run_of(c, i as nat),
        decreases n - i,
    {
        line.push(c);
        i += 1;
    }
}

/// The shortest line that holds `blocks`, or `None` where no `usize` can hold that length.
pub fn required_length(blocks: &Vec<usize>) -> (r: Option<usize>)
    ensures
        match r {
            Some(m) => m == min_line_length(block_lengths(blocks@)),
            None => min_line_length(block_lengths(blocks@)) > usize::MAX,
        },
{
    let ghost b = block_lengths(blocks@);
    if blocks.len() == 0 {
        return Some(0);
    }
    // The separators, one fewer than the blocks, then the blocks from the last to the first.
    let mut acc: usize = blocks.len() - 1;
    let mut i: usize = blocks.len();
    while i > 0
        invariant
            i <= blocks.len(),
            b == block_lengths(blocks@),
            acc == total(b.skip(i as int)) + blocks.len() - 1,
        decreases i,
    {
        i -= 1;
        proof {
            assert(b.skip(i as int).skip(1) =~= b.skip(i as int + 1));
            assert(b.skip(i as int)[0] == blocks[i as int] as nat);
        }
        match acc.checked_add(blocks[i]) {
            Some(sum) => {
                acc = sum;
            },
            None => {
                proof {
                    lemma_total_of_suffix(b, i as int);
                }
                return None;
            },
        }
    }
    proof {
        assert(b.skip(0) =~= b);
    }
    Some(acc)
}

/// Lays out the blocks from `index` on behind the cells already in `line`, and appends
/// each finished line to `results`. `line` is scratch space: it leaves as it came.
fn place_blocks(
    blocks: &Vec<usize>,
    index: usize,
    pos: usize,
    line: &mut Vec<Cell>,
    line_size: usize,
    min_len: usize,
    results: &mut Vec<Vec<Cell>>,
)
    requires
        index <= blocks.len(),
        pos <= line_size,
        old(line)@.len() == pos,
        min_len == min_line_length(block_lengths(blocks@).skip(index as int)),
    ensures
        final(line)@ == old(line)@,
        rows_view(final(results)@) == rows_view(old(results)@) + extend_each(
            old(line)@,
            possibilities(block_lengths(blocks@).skip(index as int), (line_size - pos) as nat),
        ),
    decreases blocks.len() - index,
{
    let ghost rest = block_lengths(blocks@).skip(index as int);
    let ghost room = (line_size - pos) as nat;
    let ghost prefix = line@;
    let ghost before = rows_view(results@);
    if min_len > line_size - pos {
        assert(rest.len() > 0);
        assert(possibilities(rest, room) =~= Seq::<Seq<Cell>>::empty());
        assert(before =~= before + extend_each(prefix, possibilities(rest, room)));
        return ;
    }
    if index == blocks.len() {
        push_run(line, Cell::Empty, line_size - pos);
        results.push(line.clone());
        line.truncate(pos);
        proof {
            assert(rest.len() == 0);
            assert(line@ =~= prefix);
            assert(rows_view(results@) =~= before + extend_each(prefix, possibilities(rest, room)));
        }
        return ;
    }
    let block = blocks[index];
    let more = index + 1 < blocks.len();
    proof {
        lemma_min_line_length_step(rest);
        assert(rest[0] == block as nat);
        assert(rest.skip(1) =~= block_lengths(blocks@).skip(index as int + 1));
    }
    let next_min: usize = if more {
        min_len - block - 1
    } else {
        0
    };
    let max_start: usize = line_size - min_len;
    let mut start: usize = pos;
    loop
        invariant_except_break
            pos <= start <= max_start,
            rows_view(results@) == before + extend_each(
                prefix,
                starting_before(rest, room, (start - pos) as nat),
            ),
        invariant
            line@ == prefix,
            prefix.len() == pos,
            index < blocks.len(),
            block == blocks[index as int],
            more == (index + 1 < blocks.len()),
            rest == block_lengths(blocks@).skip(index as int),
            rest.skip(1) == block_lengths(blocks@).skip(index as int + 1),
            rest[0] == block as nat,
            room == (line_size - pos) as nat,
            min_len == min_line_length(rest),
            next_min == min_line_length(rest.skip(1)),
            min_len == block + separator(rest) + next_min,
            max_start == line_size - min_len,
            pos <= max_start,
        ensures
            rows_view(results@) == before + extend_each(
                prefix,
                starting_before(rest, room, (max_start - pos + 1) as nat),
            ),
        decreases max_start - start,
    {
        let ghost gap = (start - pos) as nat;
        push_run(line, Cell::Empty, start - pos);
        push_run(line, Cell::Filled, block);
        let mut next: usize = start + block;
        if more {
            line.push(Cell::Empty);
            next += 1;
        }
        proof {
            assert(line@ =~= prefix + head_at(rest, gap));
        }
        place_blocks(blocks, index + 1, next, line, line_size, next_min, results);
        line.truncate(pos);
        proof {
            let tails = possibilities(rest.skip(1), (line_size - next) as nat);
            assert((line_size - next) as nat == (room - gap - rest[0] - separator(rest)) as nat);
            assert(starting_at(rest, room, gap) == extend_each(head_at(rest, gap), tails));
            lemma_extend_each_twice(prefix, head_at(rest, gap), tails);
            lemma_extend_each_of_two(
                prefix,
                starting_before(rest, room, gap),
                starting_at(rest, room, gap),
            );
            assert(starting_before(rest, room, gap + 1) == starting_before(rest, room, gap)
                + starting_at(rest, room, gap));
            assert(rows_view(results@) =~= before + extend_each(
                prefix,
                starting_before(rest, room, gap + 1),
            ));
            assert(line@ =~= prefix);
        }
        if start == max_start {
            break ;
        }
        start += 1;
    }
    proof {
        assert(possibilities(rest, room) == starting_before(
            rest,
            room,
            (room - min_line_length(rest) + 1) as nat,
        ));
    }
}

/// All the lines of `line_size` cells whose runs of filled cells are `blocks`, in order:
/// by the start of the first block, leftmost first, then by the second, and so on.
/// A block sequence that does not fit gives no line, and no blocks give the empty line.
pub fn generate_line_possibilities(blocks: &Vec<usize>, line_size: usize) -> (results: Vec<
    Vec<Cell>,
>)
    ensures
        rows_view(results@) == possibilities(block_lengths(blocks@), line_size as nat),
        forall|i: int| 0 <= i < results@.len() ==> (#[trigger] results@[i])@.len() == line_size,
        min_line_length(block_lengths(blocks@)) > line_size ==> results@.len() == 0,
        blocks@.len() == 0 ==> rows_view(results@) == seq![run_of(Cell::Empty, line_size as nat)],
        all_positive(block_lengths(blocks@)) ==> {
            &&& forall|i: int|
                0 <= i < results@.len() ==> fits(
                    (#[trigger] results@[i])@,
                    block_lengths(blocks@),
                    line_size as nat,
                )
            &&& forall|line: Seq<Cell>|
                fits(line, block_lengths(blocks@), line_size as nat) ==> #[trigger] rows_view(
                    results@,
                ).contains(line)
            &&& rows_view(results@).no_duplicates()
            &&& in_order(rows_view(results@))
        },
{
    let mut results: Vec<Vec<Cell>> = Vec::new();
    let ghost b = block_lengths(blocks@);
    proof {
        let n = line_size as nat;
        let all = possibilities(b, n);
        lemma_possibilities_length(b, n);
        if all_positive(b) {
            lemma_possibilities_fit(b, n);
            lemma_possibilities_distinct(b, n);
            lemma_possibilities_in_order(b, n);
            assert forall|line: Seq<Cell>| fits(line, b, n) implies #[trigger] all.contains(
                line,
            ) by {
                lemma_possibilities_complete(b, n, line);
            }
        }
        assert forall|lines: Seq<Vec<Cell>>, i: int|
            rows_view(lines) == all && 0 <= i < lines.len() implies (#[trigger] lines[i])@
            == all[i] by {
            assert(rows_view(lines)[i] == lines[i]@);
        }
    }
    match required_length(blocks) {
        None => {
            assert(rows_view(results@) =~= possibilities(b, line_size as nat));
        },
        Some(min_len) => {
            if min_len > line_size {
                assert(rows_view(results@) =~= possibilities(b, line_size as nat));
            } else {
                let mut line: Vec<Cell> = Vec::new();
                proof {
                    assert(b.skip(0) =~= b);
                }
                place_blocks(blocks, 0, 0, &mut line, line_size, min_len, &mut results);
                proof {
                    let all = possibilities(b, line_size as nat);
                    assert(extend_each(Seq::<Cell>::empty(), all) =~= all) by {
                        assert forall|i: int| 0 <= i < all.len() implies Seq::<Cell>::empty()
                            + all[i] == all[i] by {
                            assert(Seq::<Cell>::empty() + all[i] =~= all[i]);
                        }
                    }
                    assert(rows_view(results@) =~= all);
                }
            }
        },
    }
    results
}

} // verus!
