use nonogram_solver::cell::{Cell, CellPattern};
use nonogram_solver::error::SolveError;

const ALL: [CellPattern; 3] = [CellPattern::Empty, CellPattern::Uncertain, CellPattern::Filled];

#[test]
fn to_pattern_keeps_the_value() {
    assert_eq!(Cell::Empty.to_pattern(), CellPattern::Empty);
    assert_eq!(Cell::Filled.to_pattern(), CellPattern::Filled);
}

#[test]
fn merge_of_equal_proven_values() {
    assert_eq!(CellPattern::merge(CellPattern::Empty, CellPattern::Empty), CellPattern::Empty);
    assert_eq!(CellPattern::merge(CellPattern::Filled, CellPattern::Filled), CellPattern::Filled);
}

#[test]
fn merge_of_different_values_is_uncertain() {
    assert_eq!(CellPattern::merge(CellPattern::Empty, CellPattern::Filled), CellPattern::Uncertain);
    assert_eq!(CellPattern::merge(CellPattern::Filled, CellPattern::Empty), CellPattern::Uncertain);
    for v in ALL {
        assert_eq!(CellPattern::merge(CellPattern::Uncertain, v), CellPattern::Uncertain);
        assert_eq!(CellPattern::merge(v, CellPattern::Uncertain), CellPattern::Uncertain);
    }
}

#[test]
fn merge_is_commutative() {
    for x in ALL {
        for y in ALL {
            assert_eq!(CellPattern::merge(x, y), CellPattern::merge(y, x));
        }
    }
}

#[test]
fn merge_is_idempotent() {
    for x in ALL {
        assert_eq!(CellPattern::merge(x, x), x);
    }
    for c in [Cell::Empty, Cell::Filled] {
        assert_eq!(CellPattern::merge(c.to_pattern(), c.to_pattern()), c.to_pattern());
    }
}

#[test]
fn merge_is_associative() {
    for x in ALL {
        for y in ALL {
            for z in ALL {
                assert_eq!(
                    CellPattern::merge(CellPattern::merge(x, y), z),
                    CellPattern::merge(x, CellPattern::merge(y, z))
                );
            }
        }
    }
}

#[test]
fn merge_known_of_equal_values() {
    for v in ALL {
        assert_eq!(CellPattern::merge_known(v, v), Ok(v));
    }
}

#[test]
fn merge_known_uncertain_yields_to_the_other() {
    for v in ALL {
        assert_eq!(CellPattern::merge_known(CellPattern::Uncertain, v), Ok(v));
        assert_eq!(CellPattern::merge_known(v, CellPattern::Uncertain), Ok(v));
    }
}

#[test]
fn merge_known_conflicts() {
    assert_eq!(
        CellPattern::merge_known(CellPattern::Empty, CellPattern::Filled),
        Err(SolveError::MergeConflict)
    );
    assert_eq!(
        CellPattern::merge_known(CellPattern::Filled, CellPattern::Empty),
        Err(SolveError::MergeConflict)
    );
}
