//! The two-valued cell of a single line possibility and the three-valued cell of
//! merged knowledge, with the two ways of combining knowledge.

use crate::error::SolveError;
use vstd::prelude::*;

verus! {

/// A cell of one fully specified line possibility.
#[derive(Debug, Clone, Copy, PartialEq, Eq, Structural)]
pub enum Cell {
    Empty,
    Filled,
}

/// What is known of a cell: proven empty, proven filled, or not yet proven either way.
#[derive(Debug, Clone, Copy, PartialEq, Eq, Structural)]
pub enum CellPattern {
    Empty,
    Uncertain,
    Filled,
}

impl Cell {
    /// The knowledge that a single possibility gives of a cell: never `Uncertain`.
    pub open spec fn pattern(self) -> CellPattern {
        match self {
            Cell::Empty => CellPattern::Empty,
            Cell::Filled => CellPattern::Filled,
        }
    }

    pub fn to_pattern(&self) -> (p: CellPattern)
        ensures
            p == self.pattern(),
    {
        match self {
            Cell::Empty => CellPattern::Empty,
            Cell::Filled => CellPattern::Filled,
        }
    }
}

impl CellPattern {
    /// Whether the cell is proven one way or the other.
    pub open spec fn is_known(self) -> bool {
        self != CellPattern::Uncertain
    }

    /// The consensus of two pieces of evidence about the possibilities of one line:
    /// a value survives only where both agree on it.
    pub open spec fn merged(x: CellPattern, y: CellPattern) -> CellPattern {
        if x == y {
            x
        } else {
            CellPattern::Uncertain
        }
    }

    /// What two independent derivations of the same cell prove together: `Uncertain`
    /// yields to the other value, equal values stand, and two different proven values
    /// contradict each other.
    pub open spec fn reconciled(x: CellPattern, y: CellPattern) -> Result<CellPattern, SolveError> {
        if x == CellPattern::Uncertain {
            Ok(y)
        } else if y == CellPattern::Uncertain || x == y {
            Ok(x)
        } else {
            Err(SolveError::MergeConflict)
        }
    }

    pub fn merge(x: Self, y: Self) -> (r: Self)
        ensures
            r == Self::merged(x, y),
    {
        match (x, y) {
            (CellPattern::Empty, CellPattern::Empty) => CellPattern::Empty,
            (CellPattern::Filled, CellPattern::Filled) => CellPattern::Filled,
            _ => CellPattern::Uncertain,
        }
    }

    pub fn merge_known(x: Self, y: Self) -> (r: Result<Self, SolveError>)
        ensures
            r == Self::reconciled(x, y),
    {
        match (x, y) {
            (CellPattern::Empty, CellPattern::Empty) => Ok(CellPattern::Empty),
            (CellPattern::Filled, CellPattern::Filled) => Ok(CellPattern::Filled),
            (CellPattern::Uncertain, a) => Ok(a),
            (a, CellPattern::Uncertain) => Ok(a),
            _ => Err(SolveError::MergeConflict),
        }
    }

    /// `merge` does not depend on the order of its arguments.
    pub proof fn merge_commutative(x: CellPattern, y: CellPattern)
        ensures
            Self::merged(x, y) == Self::merged(y, x),
    {
    }

    /// Merging a value with itself gives it back; in particular the two values that a
    /// single possibility can give are kept.
    pub proof fn merge_idempotent(x: CellPattern)
        ensures
            Self::merged(x, x) == x,
    {
    }

    /// `merge` can fold a line's possibilities in any grouping.
    pub proof fn merge_associative(x: CellPattern, y: CellPattern, z: CellPattern)
        ensures
            Self::merged(Self::merged(x, y), z) == Self::merged(x, Self::merged(y, z)),
    {
    }

    /// Two different proven values merge to `Uncertain`.
    pub proof fn merge_of_disagreement(x: CellPattern, y: CellPattern)
        requires
            x != y,
        ensures
            Self::merged(x, y) == CellPattern::Uncertain,
    {
    }

    /// `Uncertain` is neutral for `merge_known`, on either side.
    pub proof fn merge_known_uncertain_neutral(v: CellPattern)
        ensures
            Self::reconciled(CellPattern::Uncertain, v) == Ok::<CellPattern, SolveError>(v),
            Self::reconciled(v, CellPattern::Uncertain) == Ok::<CellPattern, SolveError>(v),
    {
    }

    /// `merge_known` fails exactly on the two pairs of opposite proven values.
    pub proof fn merge_known_conflict(x: CellPattern, y: CellPattern)
        ensures
            Self::reconciled(x, y) is Err <==> (x.is_known() && y.is_known() && x != y),
            Self::reconciled(x, y) is Err ==> Self::reconciled(x, y) == Err::<CellPattern, SolveError>(
                SolveError::MergeConflict,
            ),
            Self::reconciled(CellPattern::Empty, CellPattern::Filled) is Err,
            Self::reconciled(CellPattern::Filled, CellPattern::Empty) is Err,
    {
    }
}

} // verus!
