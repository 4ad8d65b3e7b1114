use vstd::prelude::*;

use crate::piece::Piece;

verus! {

/// Board coordinates as mathematical integer pairs.
pub open spec fn coords_view(s: Seq<(usize, usize)>) -> Seq<(int, int)> {
    s.map_values(|q: (usize, usize)| (q.0 as int, q.1 as int))
}

/// The move evaluator's verdict on one candidate square: a play worth a
/// score, or no play at all.
#[derive(Debug, PartialEq)]
pub enum PlayResult {
    ValidWithScore(ValidPlay),
    Invalid,
    Undefined,
}

/// A legal play: the square to place on, the enemy squares that flip, the
/// acting piece, and the score (flipped squares plus the placed disc).
#[derive(Debug, PartialEq)]
pub struct ValidPlay {
    score: usize,
    coord: (usize, usize),
    changed_coords: Vec<(usize, usize)>,
    player: Piece,
}

impl ValidPlay {
    pub closed spec fn spec_score(&self) -> usize {
        self.score
    }

    pub closed spec fn spec_coord(&self) -> (usize, usize) {
        self.coord
    }

    pub closed spec fn spec_changed_raw(&self) -> Seq<(usize, usize)> {
        self.changed_coords@
    }

    /// The coordinates that flip, as mathematical integer pairs.
    pub open spec fn spec_changed(&self) -> Seq<(int, int)> {
        coords_view(self.spec_changed_raw())
    }

    pub closed spec fn spec_player(&self) -> Piece {
        self.player
    }

    pub fn new(
        score: usize,
        coord: (usize, usize),
        changed_coords: Vec<(usize, usize)>,
        player: Piece,
    ) -> (r: ValidPlay)
        ensures
            r.spec_score() == score,
            r.spec_coord() == coord,
            r.spec_changed_raw() == changed_coords@,
            r.spec_player() == player,
    {
        ValidPlay { score, coord, changed_coords, player }
    }

    pub fn coord(&self) -> (r: &(usize, usize))
        ensures
            *r == self.spec_coord(),
    {
        &self.coord
    }

    pub fn changed_coords(&self) -> (r: &Vec<(usize, usize)>)
        ensures
            r@ == self.spec_changed_raw(),
    {
        &self.changed_coords
    }

    pub fn player(&self) -> (r: &Piece)
        ensures
            *r == self.spec_player(),
    {
        &self.player
    }

    pub fn score(&self) -> (r: usize)
        ensures
            r == self.spec_score(),
    {
        self.score
    }
}

} // verus!
