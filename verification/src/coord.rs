use vstd::prelude::*;

use crate::board::BOARD_SIZE;

verus! {

/// A board position: row and column, both within the 8 x 8 grid.
#[derive(Debug, Clone, Copy, PartialEq, Eq, Structural)]
pub struct Coord {
    pub row: usize,
    pub col: usize,
}

/// A signed unit step in one of the 8 compass directions, combined with a
/// hop count to project a `Coord`.
#[derive(Debug, Clone, Copy, PartialEq, Eq, Structural)]
pub struct Vector {
    pub row: isize,
    pub col: isize,
}

impl From<(usize, usize)> for Coord {
    fn from(tuple: (usize, usize)) -> (r: Coord) {
        Coord { row: tuple.0, col: tuple.1 }
    }
}

impl vstd::std_specs::convert::FromSpecImpl<(usize, usize)> for Coord {
    open spec fn obeys_from_spec() -> bool {
        true
    }

    open spec fn from_spec(tuple: (usize, usize)) -> Coord {
        Coord { row: tuple.0, col: tuple.1 }
    }
}

impl From<(isize, isize)> for Vector {
    fn from(tuple: (isize, isize)) -> (r: Vector) {
        Vector { row: tuple.0, col: tuple.1 }
    }
}

impl vstd::std_specs::convert::FromSpecImpl<(isize, isize)> for Vector {
    open spec fn obeys_from_spec() -> bool {
        true
    }

    open spec fn from_spec(tuple: (isize, isize)) -> Vector {
        Vector { row: tuple.0, col: tuple.1 }
    }
}

impl Coord {
    /// Project this position `hops` steps along `vector`, bounds-safe: a
    /// projection with a negative component yields `None`, any other yields
    /// the exact destination.
    pub fn towards(&self, vector: &Vector, hops: usize) -> (r: Option<Coord>)
        requires
            self.row < BOARD_SIZE,
            self.col < BOARD_SIZE,
            -1 <= vector.row <= 1,
            -1 <= vector.col <= 1,
            hops <= BOARD_SIZE,
        ensures
            r is Some <==> self.row + vector.row * hops >= 0 && self.col + vector.col * hops >= 0,
            r is Some ==> r->0.row == self.row + vector.row * hops && r->0.col == self.col
                + vector.col * hops,
    {
        let h = hops as isize;
        proof {
            assert(-8 <= vector.row * h <= 8 && -8 <= vector.col * h <= 8) by (nonlinear_arith)
                requires
                    -1 <= vector.row <= 1,
                    -1 <= vector.col <= 1,
                    0 <= h <= 8,
            ;
        }
        let row: isize = self.row as isize + vector.row * h;
        let col: isize = self.col as isize + vector.col * h;
        if row < 0 || col < 0 {
            None
        } else {
            Some(Coord { row: row as usize, col: col as usize })
        }
    }
}

} // verus!
