use reversi::board::Board;
use reversi::coord::{Coord, Vector};
use reversi::move_result::{MoveResult, PositionalOutcome};
use reversi::piece::{BoardSquare, CoordinatedBoardSquare, Piece};
use reversi::play::ValidPlay;
use reversi::valid_move::ValidMove;

#[test]
fn can_initialize_board() {
    let board = Board::new();

    // Asserting first player
    assert_eq!(*board.current_player(), Piece::White, "first player must be white");

    // Asserting initial positions
    assert_eq!(
        *board.get_coord_square_at((3, 3)).square(),
        BoardSquare::Played(Piece::Black)
    );
    assert_eq!(
        *board.get_coord_square_at((4, 4)).square(),
        BoardSquare::Played(Piece::Black)
    );
    assert_eq!(
        *board.get_coord_square_at((3, 4)).square(),
        BoardSquare::Played(Piece::White)
    );
    assert_eq!(
        *board.get_coord_square_at((4, 3)).square(),
        BoardSquare::Played(Piece::White)
    );

    // Asserting board size, which must be 8 to avoid problems with isize <-> conversions
    assert_eq!(*board.get_coord_square_at((7, 7)).square(), BoardSquare::Unplayed);
    assert_eq!(*board.get_coord_square_at((8, 0)).square(), BoardSquare::OutOfBounds);
    assert_eq!(*board.get_coord_square_at((0, 8)).square(), BoardSquare::OutOfBounds);
}

#[test]
fn ray_query_projects_along_a_direction() {
    let board = Board::new();

    // hop 0 reduces to the point query
    assert_eq!(
        board.get_coord_square_towards((3, 3), (0, 0), 0),
        CoordinatedBoardSquare::new((3, 3), BoardSquare::Played(Piece::Black))
    );

    // two hops down-right from (2,2) lands on Black's (4,4)
    assert_eq!(
        board.get_coord_square_towards((2, 2), (1, 1), 2),
        CoordinatedBoardSquare::new((4, 4), BoardSquare::Played(Piece::Black))
    );

    // a projection off the edge answers OutOfBounds
    assert_eq!(
        *board.get_coord_square_towards((1, 1), (-1, -1), 2).square(),
        BoardSquare::OutOfBounds
    );

    // the projection is computed even from an off-grid origin: two hops
    // up-left from (9,9) lands on the stored square at (7,7)
    assert_eq!(
        board.get_coord_square_towards((9, 9), (-1, -1), 2),
        CoordinatedBoardSquare::new((7, 7), BoardSquare::Unplayed)
    );

    // an off-grid origin projecting further off the grid stays OutOfBounds
    assert_eq!(
        *board.get_coord_square_towards((9, 9), (1, 1), 2).square(),
        BoardSquare::OutOfBounds
    );
}

#[test]
fn committing_a_play_overwrites_its_squares() {
    let mut board = Board::new();
    let play = ValidPlay::new(3, (0, 0), vec![(0, 0), (0, 1)], Piece::Black);

    board.capture_squares(&play);

    assert_eq!(
        *board.get_coord_square_at((0, 0)).square(),
        BoardSquare::Played(Piece::Black)
    );
    assert_eq!(
        *board.get_coord_square_at((0, 1)).square(),
        BoardSquare::Played(Piece::Black)
    );
    // an uncommitted square does not move
    assert_eq!(
        *board.get_coord_square_at((3, 4)).square(),
        BoardSquare::Played(Piece::White)
    );
}

#[test]
fn current_player_can_be_changed_through_the_board() {
    let mut board = Board::new();

    *board.current_player_mut() = Piece::Black;
    assert_eq!(*board.current_player(), Piece::Black);
}

#[test]
fn coord_projects_towards_a_vector() {
    let coord = Coord::from((3, 4));
    let vector = Vector::from((-1, 1));

    assert_eq!(coord.towards(&vector, 2), Some(Coord { row: 1, col: 6 }));
    assert_eq!(coord.towards(&vector, 0), Some(Coord { row: 3, col: 4 }));
    // a negative projection does not exist
    assert_eq!(coord.towards(&Vector::from((-1, 0)), 4), None);
}

#[test]
fn valid_play_exposes_its_parts() {
    let play = ValidPlay::new(2, (3, 2), vec![(3, 3)], Piece::White);

    assert_eq!(*play.coord(), (3, 2));
    assert_eq!(*play.changed_coords(), vec![(3, 3)]);
    assert_eq!(*play.player(), Piece::White);
    assert_eq!(play.score(), 2);
}

#[test]
fn positional_outcome_exposes_its_parts() {
    let mut outcome = PositionalOutcome::new(
        Coord::from((2, 3)),
        vec![Coord::from((3, 3))],
    );

    assert_eq!(*outcome.coord(), Coord { row: 2, col: 3 });
    assert_eq!(outcome.changed_coords().len(), 1);

    outcome.changed_coords_mut().push(Coord::from((4, 4)));
    assert_eq!(outcome.changed_coords().len(), 2);
    assert_eq!(outcome.changed_coords()[1], Coord { row: 4, col: 4 });

    let verdict = MoveResult::Valid(outcome);
    assert!(matches!(verdict, MoveResult::Valid(_)));
    assert_ne!(MoveResult::Invalid, MoveResult::OutOfBounds);
}

#[test]
fn valid_move_exposes_its_parts() {
    let mut mv = ValidMove::new(2, Coord::from((3, 2)), vec![Coord::from((3, 3))], Piece::White);

    assert_eq!(*mv.coord(), Coord { row: 3, col: 2 });
    assert_eq!(*mv.player(), Piece::White);
    assert_eq!(mv.changed_coords().len(), 1);

    mv.changed_coords_mut().clear();
    assert_eq!(mv.changed_coords().len(), 0);

    let verdict = reversi::valid_move::MoveResult::ValidWithScore(mv);
    assert!(matches!(
        verdict,
        reversi::valid_move::MoveResult::ValidWithScore(_)
    ));
}
