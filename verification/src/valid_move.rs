use vstd::prelude::*;

use crate::coord::Coord;
use crate::piece::Piece;

verus! {

/// A move evaluator verdict carried with `Coord` positions and a score.
#[derive(Debug, PartialEq)]
pub enum MoveResult {
    ValidWithScore(ValidMove),
    Invalid,
    Undefined,
}

/// A legal move with its score, target, flipped squares, and acting piece.
#[derive(Debug, PartialEq)]
pub struct ValidMove {
    score: usize,
    coord: Coord,
    changed_coords: Vec<Coord>,
    player: Piece,
}

impl ValidMove {
    pub closed spec fn spec_score(&self) -> usize {
        self.score
    }

    pub closed spec fn spec_coord(&self) -> Coord {
        self.coord
    }

    pub closed spec fn spec_changed(&self) -> Seq<Coord> {
        self.changed_coords@
    }

    pub closed spec fn spec_player(&self) -> Piece {
        self.player
    }

    pub fn new(score: usize, coord: Coord, changed_coords: Vec<Coord>, player: Piece) -> (r:
        ValidMove)
        ensures
            r.spec_score() == score,
            r.spec_coord() == coord,
            r.spec_changed() == changed_coords@,
            r.spec_player() == player,
    {
        ValidMove { score, coord, changed_coords, player }
    }

    pub fn coord(&self) -> (r: &Coord)
        ensures
            *r == self.spec_coord(),
    {
        &self.coord
    }

    pub fn changed_coords(&self) -> (r: &Vec<Coord>)
        ensures
            r@ == self.spec_changed(),
    {
        &self.changed_coords
    }

    pub fn changed_coords_mut(&mut self) -> (r: &mut Vec<Coord>)
        ensures
            r@ == old(self).spec_changed(),
            final(self).spec_changed() == final(r)@,
            final(self).spec_coord() == old(self).spec_coord(),
            final(self).spec_score() == old(self).spec_score(),
            final(self).spec_player() == old(self).spec_player(),
    {
        &mut self.changed_coords
    }

    pub fn player(&self) -> (r: &Piece)
        ensures
            *r == self.spec_player(),
    {
        &self.player
    }
}

} // verus!
