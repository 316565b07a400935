//! A puzzle: the size of the grid and the blocks of every row and column.

use crate::line::block_lengths;
use vstd::prelude::*;

verus! {

/// The specification of a puzzle. Nothing ties the sizes to the number of block
/// sequences: `width` is the length of every row, `height` the length of every column.
#[derive(Debug)]
pub struct PuzzleInfo {
    width: usize,
    height: usize,
    row_blocks: Vec<Vec<usize>>,
    col_blocks: Vec<Vec<usize>>,
}

/// A puzzle as mathematical values.
pub ghost struct PuzzleInfoView {
    /// The number of cells of a row.
    pub width: nat,
    /// The number of cells of a column.
    pub height: nat,
    /// The block sequence of each row, top to bottom.
    pub row_blocks: Seq<Seq<nat>>,
    /// The block sequence of each column, left to right.
    pub col_blocks: Seq<Seq<nat>>,
}

/// The block sequences of several lines as mathematical numbers.
pub open spec fn blocks_view(blocks: Seq<Vec<usize>>) -> Seq<Seq<nat>> {
    Seq::new(blocks.len(), |i: int| block_lengths(blocks[i]@))
}

impl View for PuzzleInfo {
    type V = PuzzleInfoView;

    closed spec fn view(&self) -> PuzzleInfoView {
        PuzzleInfoView {
            width: self.width as nat,
            height: self.height as nat,
            row_blocks: blocks_view(self.row_blocks@),
            col_blocks: blocks_view(self.col_blocks@),
        }
    }
}

impl PuzzleInfo {
    pub fn new(
        width: usize,
        height: usize,
        row_blocks: Vec<Vec<usize>>,
        col_blocks: Vec<Vec<usize>>,
    ) -> (puzzle: Self)
        ensures
            puzzle@ == (PuzzleInfoView {
                width: width as nat,
                height: height as nat,
                row_blocks: blocks_view(row_blocks@),
                col_blocks: blocks_view(col_blocks@),
            }),
    {
        Self { width, height, row_blocks, col_blocks }
    }

    /// The puzzle of the given blocks, or `None` where there are no rows or no columns.
    /// Both sides of the grid are taken from the columns: `width` and `height` are the
    /// number of column block sequences, whatever the number of rows is. A puzzle that
    /// is not square needs `new`.
    pub fn from_blocks(row_blocks: Vec<Vec<usize>>, col_blocks: Vec<Vec<usize>>) -> (puzzle: Option<
        Self,
    >)
        ensures
            puzzle is None <==> (row_blocks@.len() == 0 || col_blocks@.len() == 0),
            puzzle matches Some(p) ==> p@ == (PuzzleInfoView {
                width: col_blocks@.len(),
                height: col_blocks@.len(),
                row_blocks: blocks_view(row_blocks@),
                col_blocks: blocks_view(col_blocks@),
            }),
    {
        if row_blocks.len() == 0 || col_blocks.len() == 0 {
            None
        } else {
            let side = col_blocks.len();
            Some(Self::new(side, side, row_blocks, col_blocks))
        }
    }

    pub fn width(&self) -> (w: usize)
        ensures
            w == self@.width,
    {
        self.width
    }

    pub fn height(&self) -> (h: usize)
        ensures
            h == self@.height,
    {
        self.height
    }

    pub fn row_blocks(&self) -> (blocks: &Vec<Vec<usize>>)
        ensures
            blocks_view(blocks@) == self@.row_blocks,
    {
        &self.row_blocks
    }

    pub fn col_blocks(&self) -> (blocks: &Vec<Vec<usize>>)
        ensures
            blocks_view(blocks@) == self@.col_blocks,
    {
        &self.col_blocks
    }
}

} // verus!
