use vstd::prelude::*;

use crate::piece::{BoardSquare, CoordinatedBoardSquare, Piece};
use crate::play::ValidPlay;
use array2d::Array2D;

verus! {

/// The grid is fixed at 8 x 8; the size is kept this small so that signed
/// intermediates in ray projection can never overflow.
pub const BOARD_SIZE: usize = 8;

/// True when (r, c) names one of the 64 grid cells.
pub open spec fn in_bounds(r: int, c: int) -> bool {
    0 <= r < BOARD_SIZE && 0 <= c < BOARD_SIZE
}

/// What each cell of a fresh board holds: the four centre squares in the
/// canonical diagonal pattern, every other square empty.
pub open spec fn init_square(r: int, c: int) -> BoardSquare {
    if (r == 3 && c == 3) || (r == 4 && c == 4) {
        BoardSquare::Played(Piece::Black)
    } else if (r == 3 && c == 4) || (r == 4 && c == 3) {
        BoardSquare::Played(Piece::White)
    } else {
        BoardSquare::Unplayed
    }
}

#[verifier::external_type_specification]
#[verifier::external_body]
#[verifier::reject_recursive_types(T)]
pub struct ExArray2D<T>(Array2D<T>);

/// The cells of a grid, as a map from each in-range (row, column) pair to
/// the element stored there.
pub uninterp spec fn grid_contents(grid: Array2D<BoardSquare>) -> Map<(int, int), BoardSquare>;

/// The contents of a rows x cols grid whose every cell holds `element`.
pub open spec fn uniform_grid(rows: int, cols: int, element: BoardSquare) -> Map<
    (int, int),
    BoardSquare,
> {
    Map::new((|p: (int, int)| 0 <= p.0 < rows && 0 <= p.1 < cols), (|p: (int, int)| element))
}

/// Relies on array2d::Array2D::filled_with: builds a rows x cols grid whose
/// every cell holds a clone of the given element.
#[verifier::external_body]
fn grid_filled(element: BoardSquare, rows: usize, cols: usize) -> (grid: Array2D<BoardSquare>)
    requires
        rows * cols <= usize::MAX,
    ensures
        grid_contents(grid) == uniform_grid(rows as int, cols as int, element),
{
    Array2D::filled_with(element, rows, cols)
}

/// Relies on array2d::Array2D::get: Some of the cell inside the grid, None
/// outside it.
#[verifier::external_body]
fn grid_get(grid: &Array2D<BoardSquare>, row: usize, col: usize) -> (r: Option<BoardSquare>)
    ensures
        r is Some <==> grid_contents(*grid).dom().contains((row as int, col as int)),
        r is Some ==> r->0 == grid_contents(*grid)[(row as int, col as int)],
{
    grid.get(row, col).copied()
}

/// Relies on array2d::Array2D::set: overwrites the cell inside the grid and
/// reports true; outside the grid it changes nothing and reports false.
#[verifier::external_body]
fn grid_set(grid: &mut Array2D<BoardSquare>, row: usize, col: usize, element: BoardSquare) -> (ok:
    bool)
    ensures
        ok <==> grid_contents(*old(grid)).dom().contains((row as int, col as int)),
        ok ==> grid_contents(*final(grid)) == grid_contents(*old(grid)).insert(
            (row as int, col as int),
            element,
        ),
        !ok ==> grid_contents(*final(grid)) == grid_contents(*old(grid)),
{
    grid.set(row, col, element).is_ok()
}

/// The 8 x 8 grid of squares, plus the piece that moves first. The board is
/// deliberately rule-agnostic: `capture_squares` overwrites whatever it is
/// told to, and all legality lives in the move evaluator.
pub struct Board {
    current_player: Piece,
    squares: Array2D<BoardSquare>,
}

impl Board {
    /// The square stored at (r, c), or `OutOfBounds` for a location that
    /// does not exist.
    pub closed spec fn square_at(&self, r: int, c: int) -> BoardSquare {
        if in_bounds(r, c) {
            grid_contents(self.squares)[(r, c)]
        } else {
            BoardSquare::OutOfBounds
        }
    }

    pub closed spec fn spec_player(&self) -> Piece {
        self.current_player
    }

    /// Well-formedness: the grid holds exactly the 64 in-range cells, and
    /// none of them stores the transient `OutOfBounds` value.
    pub closed spec fn wf(&self) -> bool {
        &&& forall|p: (int, int)|
            #[trigger] grid_contents(self.squares).dom().contains(p) <==> in_bounds(p.0, p.1)
        &&& forall|r: int, c: int|
            in_bounds(r, c) ==> !((#[trigger] grid_contents(self.squares)[(r, c)]) is OutOfBounds)
    }

    /// A query outside the grid answers `OutOfBounds`; on a well-formed
    /// board a query inside it never does.
    pub proof fn lemma_square_at_classifies(&self)
        requires
            self.wf(),
        ensures
            forall|r: int, c: int|
                (#[trigger] self.square_at(r, c)) is OutOfBounds <==> !in_bounds(r, c),
    {
        assert forall|r: int, c: int|
            (#[trigger] self.square_at(r, c)) is OutOfBounds <==> !in_bounds(r, c) by {
            if in_bounds(r, c) {
                assert(grid_contents(self.squares).dom().contains((r, c)));
            }
        }
    }

    pub fn new() -> (board: Board)
        ensures
            board.wf(),
            board.spec_player() == Piece::White,
            forall|r: int, c: int| #[trigger] board.square_at(r, c) == if in_bounds(r, c) {
                init_square(r, c)
            } else {
                BoardSquare::OutOfBounds
            },
    {
        let mut squares = grid_filled(BoardSquare::Unplayed, BOARD_SIZE, BOARD_SIZE);
        let ok1 = grid_set(&mut squares, 3, 3, BoardSquare::Played(Piece::Black));
        let ok2 = grid_set(&mut squares, 4, 4, BoardSquare::Played(Piece::Black));
        let ok3 = grid_set(&mut squares, 3, 4, BoardSquare::Played(Piece::White));
        let ok4 = grid_set(&mut squares, 4, 3, BoardSquare::Played(Piece::White));
        let board = Board { current_player: Piece::White, squares };
        proof {
            assert(forall|r: int, c: int| #[trigger] board.square_at(r, c) == if in_bounds(r, c) {
                init_square(r, c)
            } else {
                BoardSquare::OutOfBounds
            });
        }
        board
    }

    /// A board with every square empty, for setting up a position; White
    /// moves first, as on a fresh board.
    pub(crate) fn empty() -> (board: Board)
        ensures
            board.wf(),
            board.spec_player() == Piece::White,
            forall|r: int, c: int|
                in_bounds(r, c) ==> #[trigger] board.square_at(r, c) == BoardSquare::Unplayed,
    {
        Board {
            current_player: Piece::White,
            squares: grid_filled(BoardSquare::Unplayed, BOARD_SIZE, BOARD_SIZE),
        }
    }

    /// Point query: the square at `coord`, which is `OutOfBounds` when
    /// `coord` falls outside the grid.
    pub fn get_coord_square_at(&self, coord: (usize, usize)) -> (r: CoordinatedBoardSquare)
        requires
            self.wf(),
        ensures
            r.spec_square() == self.square_at(coord.0 as int, coord.1 as int),
            r.spec_coord() == coord,
    {
        Board::get_coord_square_towards(self, coord, (0, 0), 0)
    }

    /// Ray query: the square at `coord + vector * hops`, projected from
    /// the origin whether or not the origin itself lies on the grid. A
    /// projection with a negative component or beyond the grid answers
    /// `OutOfBounds`, carrying the projected coordinate whenever `usize`
    /// can hold it. Hop 0 reduces to the point query.
    pub fn get_coord_square_towards(
        &self,
        coord: (usize, usize),
        vector: (isize, isize),
        hops: usize,
    ) -> (r: CoordinatedBoardSquare)
        requires
            self.wf(),
            -1 <= vector.0 <= 1,
            -1 <= vector.1 <= 1,
            hops <= BOARD_SIZE,
        ensures
            ({
                let pr = coord.0 as int + vector.0 as int * hops as int;
                let pc = coord.1 as int + vector.1 as int * hops as int;
                &&& r.spec_square() == self.square_at(pr, pc)
                &&& 0 <= pr <= usize::MAX && 0 <= pc <= usize::MAX ==> r.spec_coord().0 as int
                    == pr && r.spec_coord().1 as int == pc
            }),
    {
        let h = hops as isize;
        proof {
            assert(-8 <= vector.0 * h <= 8 && -8 <= vector.1 * h <= 8) by (nonlinear_arith)
                requires
                    -1 <= vector.0 <= 1,
                    -1 <= vector.1 <= 1,
                    0 <= h <= 8,
            ;
            assert(vector.0 * h == h * vector.0 && vector.1 * h == h * vector.1)
                by (nonlinear_arith);
        }
        let row = Board::project_component(coord.0, vector.0 * h);
        let column = Board::project_component(coord.1, vector.1 * h);
        match (row, column) {
            (Some(r_us), Some(c_us)) => {
                if r_us < BOARD_SIZE && c_us < BOARD_SIZE {
                    proof {
                        assert(grid_contents(self.squares).dom().contains(
                            (r_us as int, c_us as int),
                        ));
                    }
                    match grid_get(&self.squares, r_us, c_us) {
                        Some(square) => CoordinatedBoardSquare::new((r_us, c_us), square),
                        None => CoordinatedBoardSquare::new((r_us, c_us), BoardSquare::OutOfBounds),
                    }
                } else {
                    CoordinatedBoardSquare::new((r_us, c_us), BoardSquare::OutOfBounds)
                }
            },
            _ => {
                let r_us = match row {
                    Some(v) => v,
                    None => 0,
                };
                let c_us = match column {
                    Some(v) => v,
                    None => 0,
                };
                CoordinatedBoardSquare::new((r_us, c_us), BoardSquare::OutOfBounds)
            },
        }
    }

    /// One component of a ray projection: the origin component moved by a
    /// signed step, or None when the exact sum leaves `usize`.
    fn project_component(origin: usize, step: isize) -> (r: Option<usize>)
        requires
            -8 <= step <= 8,
        ensures
            r is Some <==> 0 <= origin as int + step as int <= usize::MAX,
            r is Some ==> r->0 as int == origin as int + step as int,
    {
        if step >= 0 {
            let d = step as usize;
            if origin <= usize::MAX - d {
                Some(origin + d)
            } else {
                None
            }
        } else {
            let d = (-step) as usize;
            if origin >= d {
                Some(origin - d)
            } else {
                None
            }
        }
    }

    /// Commit a batch of squares to one piece: every coordinate the play
    /// lists is overwritten with the player's disc, and nothing else moves.
    /// No legality is checked here; the caller alone answers for the set.
    pub fn capture_squares(&mut self, play: &ValidPlay)
        requires
            old(self).wf(),
            forall|j: int|
                0 <= j < play.spec_changed().len() ==> in_bounds(
                    #[trigger] play.spec_changed()[j].0,
                    play.spec_changed()[j].1,
                ),
        ensures
            final(self).wf(),
            final(self).spec_player() == old(self).spec_player(),
            forall|r: int, c: int|
                #[trigger] final(self).square_at(r, c) == if play.spec_changed().contains(
                    (r, c),
                ) {
                    BoardSquare::Played(play.spec_player())
                } else {
                    old(self).square_at(r, c)
                },
    {
        let coords = play.changed_coords();
        let n = coords.len();
        let mut k: usize = 0;
        while k < n
            invariant
                n == coords.len(),
                k <= n,
                coords@ == play.spec_changed_raw(),
                self.wf(),
                self.spec_player() == old(self).spec_player(),
                forall|j: int|
                    0 <= j < play.spec_changed().len() ==> in_bounds(
                        #[trigger] play.spec_changed()[j].0,
                        play.spec_changed()[j].1,
                    ),
                forall|r: int, c: int| #[trigger] self.square_at(r, c) == if play.spec_changed()
                    .take(k as int).contains((r, c)) {
                    BoardSquare::Played(play.spec_player())
                } else {
                    old(self).square_at(r, c)
                },
            decreases n - k,
        {
            let ghost pre = *self;
            let coord = coords[k];
            let piece = *play.player();
            proof {
                assert(play.spec_changed()[k as int] == (coord.0 as int, coord.1 as int));
                assert(in_bounds(coord.0 as int, coord.1 as int));
                assert(grid_contents(self.squares).dom().contains(
                    (coord.0 as int, coord.1 as int),
                ));
            }
            let ok = grid_set(&mut self.squares, coord.0, coord.1, BoardSquare::Played(piece));
            proof {
                let ch = play.spec_changed();
                let kk = k as int;
                let key = (coord.0 as int, coord.1 as int);
                assert(grid_contents(self.squares) == grid_contents(pre.squares).insert(
                    key,
                    BoardSquare::Played(piece),
                ));
                assert(ch.take(kk + 1) =~= ch.take(kk).push(key));
                assert forall|p: (int, int)| #[trigger] grid_contents(self.squares).dom().contains(
                    p,
                ) <==> in_bounds(p.0, p.1) by {
                    assert(grid_contents(pre.squares).dom().contains(p) <==> in_bounds(p.0, p.1));
                }
                assert forall|r: int, c: int| #[trigger] self.square_at(r, c) == if ch.take(
                    kk + 1,
                ).contains((r, c)) {
                    BoardSquare::Played(play.spec_player())
                } else {
                    old(self).square_at(r, c)
                } by {
                    assert(pre.square_at(r, c) == if ch.take(kk).contains((r, c)) {
                        BoardSquare::Played(play.spec_player())
                    } else {
                        old(self).square_at(r, c)
                    });
                    if (r, c) == key {
                        assert(ch.take(kk + 1)[kk] == key);
                        assert(ch.take(kk + 1).contains((r, c)));
                        assert(self.square_at(r, c) == BoardSquare::Played(piece));
                    } else {
                        assert(self.square_at(r, c) == pre.square_at(r, c));
                        if ch.take(kk + 1).contains((r, c)) {
                            let i = choose|i: int|
                                0 <= i < ch.take(kk + 1).len() && #[trigger] ch.take(kk + 1)[i]
                                    == (r, c);
                            assert(ch.take(kk)[i] == (r, c));
                            assert(ch.take(kk).contains((r, c)));
                        } else {
                            assert(!ch.take(kk).contains((r, c))) by {
                                if ch.take(kk).contains((r, c)) {
                                    let i = choose|i: int|
                                        0 <= i < ch.take(kk).len() && #[trigger] ch.take(kk)[i]
                                            == (r, c);
                                    assert(ch.take(kk + 1)[i] == (r, c));
                                }
                            }
                        }
                    }
                }
            }
            k = k + 1;
        }
        proof {
            assert(play.spec_changed().take(n as int) =~= play.spec_changed());
        }
    }

    /// The piece that moves first on this board.
    pub fn current_player(&self) -> (r: &Piece)
        ensures
            *r == self.spec_player(),
    {
        &self.current_player
    }

    pub fn current_player_mut(&mut self) -> (r: &mut Piece)
        ensures
            *r == old(self).spec_player(),
            final(self).spec_player() == *final(r),
            forall|i: int, j: int|
                #[trigger] final(self).square_at(i, j) == old(self).square_at(i, j),
            old(self).wf() ==> final(self).wf(),
    {
        &mut self.current_player
    }
}

} // verus!
