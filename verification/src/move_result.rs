use vstd::prelude::*;

use crate::coord::Coord;

verus! {

/// A move evaluator verdict carried with `Coord` positions: an outcome, a
/// plainly illegal move, or a target off the board.
#[derive(Debug, PartialEq)]
pub enum MoveResult {
    Valid(PositionalOutcome),
    Invalid,
    OutOfBounds,
}

/// The positions a successful move touches: the square played and the
/// squares that change hands.
#[derive(Debug, PartialEq)]
pub struct PositionalOutcome {
    played_coord: Coord,
    changed_coords: Vec<Coord>,
}

impl PositionalOutcome {
    pub closed spec fn spec_coord(&self) -> Coord {
        self.played_coord
    }

    pub closed spec fn spec_changed(&self) -> Seq<Coord> {
        self.changed_coords@
    }

    pub fn new(played_coord: Coord, changed_coords: Vec<Coord>) -> (r: PositionalOutcome)
        ensures
            r.spec_coord() == played_coord,
            r.spec_changed() == changed_coords@,
    {
        PositionalOutcome { played_coord, changed_coords }
    }

    pub fn coord(&self) -> (r: &Coord)
        ensures
            *r == self.spec_coord(),
    {
        &self.played_coord
    }

    pub fn changed_coords(&self) -> (r: &Vec<Coord>)
        ensures
            r@ == self.spec_changed(),
    {
        &self.changed_coords
    }

    pub fn changed_coords_mut(&mut self) -> (r: &mut Vec<Coord>)
        ensures
            r@ == old(self).spec_changed(),
            final(self).spec_changed() == final(r)@,
            final(self).spec_coord() == old(self).spec_coord(),
    {
        &mut self.changed_coords
    }
}

} // verus!
