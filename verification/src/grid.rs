//! Matrices as sequences of rows: the views of nested vectors, and transposition.

use vstd::prelude::*;

verus! {

/// The rows of a vector of vectors, each as a sequence.
pub open spec fn rows_view<T>(m: Seq<Vec<T>>) -> Seq<Seq<T>> {
    Seq::new(m.len(), |i: int| m[i]@)
}

/// A vector of matrices, each as a sequence of rows.
pub open spec fn sets_view<T>(s: Seq<Vec<Vec<T>>>) -> Seq<Seq<Seq<T>>> {
    Seq::new(s.len(), |i: int| rows_view(s[i]@))
}

/// The matrix has a row, and its rows are equally long.
pub open spec fn is_rectangular<T>(m: Seq<Seq<T>>) -> bool {
    m.len() > 0 && forall|i: int| 0 <= i < m.len() ==> (#[trigger] m[i]).len() == m[0].len()
}

/// The matrix with rows and columns exchanged. It has as many rows as the first row of `m`
/// has cells.
pub open spec fn transposed<T>(m: Seq<Seq<T>>) -> Seq<Seq<T>> {
    Seq::new(m[0].len(), |j: int| Seq::new(m.len(), |i: int| m[i][j]))
}

/// The smaller of two lengths: how far two sequences can be read side by side.
pub open spec fn shorter(a: nat, b: nat) -> nat {
    if a <= b {
        a
    } else {
        b
    }
}

} // verus!
