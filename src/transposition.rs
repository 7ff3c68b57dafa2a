use vstd::prelude::*;

verus! {

/// Tag of the orientation that reads columns as rows.
pub struct Transposed;

/// Tag of the orientation that reads rows as rows.
pub struct NotTransposed;

/// An orientation of the board, known from the type.
pub trait TransposedState {
    /// Whether this orientation swaps (x, y).
    spec fn swaps() -> bool;

    /// The coordinates on the untransposed board of square (x, y) seen in
    /// this orientation.
    fn transposed_coord(x: usize, y: usize) -> (r: (usize, usize))
        ensures
            r == (if Self::swaps() {
                (y, x)
            } else {
                (x, y)
            }),
    ;
}

/// An orientation that can tell whether plays in it are vertical.
pub trait TransposedBool: TransposedState {
    fn get_transposition_as_orientation() -> (r: bool)
        ensures
            r == Self::swaps(),
    ;
}

impl TransposedState for Transposed {
    open spec fn swaps() -> bool {
        true
    }

    fn transposed_coord(x: usize, y: usize) -> (r: (usize, usize)) {
        (y, x)
    }
}

impl TransposedState for NotTransposed {
    open spec fn swaps() -> bool {
        false
    }

    fn transposed_coord(x: usize, y: usize) -> (r: (usize, usize)) {
        (x, y)
    }
}

impl TransposedBool for Transposed {
    fn get_transposition_as_orientation() -> (r: bool) {
        true
    }
}

impl TransposedBool for NotTransposed {
    fn get_transposition_as_orientation() -> (r: bool) {
        false
    }
}

} // verus!
