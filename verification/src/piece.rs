use vstd::prelude::*;

verus! {

/// One of the two players, and the colour of a placed disc. There is no
/// "empty" piece: emptiness belongs to the square, not to the piece.
#[derive(Clone, Copy, Debug, PartialEq, Eq, Structural)]
pub enum Piece {
    Black,
    White,
}

impl Piece {
    /// The piece of the other player.
    pub open spec fn opponent(self) -> Piece {
        match self {
            Piece::Black => Piece::White,
            Piece::White => Piece::Black,
        }
    }
}

/// What a board query says about one location: a disc, an empty square, or
/// a location outside the grid. `OutOfBounds` is only ever a query result;
/// a well-formed board never stores it.
#[derive(Clone, Copy, Debug, PartialEq, Eq, Structural)]
pub enum BoardSquare {
    Played(Piece),
    Unplayed,
    OutOfBounds,
}

/// A square together with the coordinate it was read at.
#[derive(Debug, PartialEq)]
pub struct CoordinatedBoardSquare {
    coord: (usize, usize),
    square: BoardSquare,
}

impl CoordinatedBoardSquare {
    pub closed spec fn spec_coord(&self) -> (usize, usize) {
        self.coord
    }

    pub closed spec fn spec_square(&self) -> BoardSquare {
        self.square
    }

    pub fn new(coord: (usize, usize), square: BoardSquare) -> (r: CoordinatedBoardSquare)
        ensures
            r.spec_coord() == coord,
            r.spec_square() == square,
    {
        CoordinatedBoardSquare { coord, square }
    }

    pub fn coord(&self) -> (r: &(usize, usize))
        ensures
            *r == self.spec_coord(),
    {
        &self.coord
    }

    pub fn square(&self) -> (r: &BoardSquare)
        ensures
            *r == self.spec_square(),
    {
        &self.square
    }
}

} // verus!
