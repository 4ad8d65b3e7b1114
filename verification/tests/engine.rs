use reversi::game::{Game, GameState};
use reversi::piece::{BoardSquare, CoordinatedBoardSquare, Piece};
use reversi::play::{PlayResult, ValidPlay};

#[test]
fn can_initialize_game() {
    let game = Game::new();

    // Assert first player, which is white
    assert_eq!(game.current_player(), Piece::White);
}

#[test]
fn checking_invalid_play_sets_status_correctly() {
    let mut game = Game::new();

    let play = game.check_play_new((0, 0));

    // Asserting an invalid play (first row, first column on a starting board)
    assert_eq!(play, PlayResult::Invalid);
}

#[test]
fn checking_valid_play_sets_state_correctly() {
    let mut game = Game::new();
    let mut play: PlayResult;

    play = game.check_play_new((3, 2));
    assert_eq!(
        play,
        PlayResult::ValidWithScore(ValidPlay::new(
            2, // 2 because I add a new piece and capture a piece
            (3, 2),
            vec![(3, 3)],
            Piece::White
        ))
    );

    play = game.check_play_new((2, 3));
    assert_eq!(
        play,
        PlayResult::ValidWithScore(ValidPlay::new(2, (2, 3), vec![(3, 3)], Piece::White))
    );

    play = game.check_play_new((4, 5));
    assert_eq!(
        play,
        PlayResult::ValidWithScore(ValidPlay::new(2, (4, 5), vec![(4, 4)], Piece::White))
    );

    play = game.check_play_new((5, 4));
    assert_eq!(
        play,
        PlayResult::ValidWithScore(ValidPlay::new(2, (5, 4), vec![(4, 4)], Piece::White))
    );
}

#[test]
fn playing_invalid_play_returns_error() {
    let mut game = Game::new();

    assert!(game.try_play((0, 0)).is_err());
}

#[test]
fn playing_valid_play_advances_game() {
    let mut game = Game::new();

    assert!(game.try_play((3, 2)).is_ok());

    assert_eq!(game.current_player(), Piece::Black);

    assert_eq!(
        game.board().get_coord_square_at((3, 3)),
        CoordinatedBoardSquare::new((3, 3), BoardSquare::Played(Piece::White))
    );
    assert_eq!(
        game.board().get_coord_square_at((3, 2)),
        CoordinatedBoardSquare::new((3, 2), BoardSquare::Played(Piece::White))
    );
}

#[test]
fn can_determine_opponent() {
    let mut game = Game::new();

    assert_eq!(game.current_opponent(), Piece::Black);

    // after a White move the turn passes to Black, whose opponent is White
    game.try_play((3, 2)).unwrap();
    assert_eq!(game.current_opponent(), Piece::White);
}

#[test]
fn initialized_game_checks_available_positions_correctly() {
    let game = Game::new();

    let moves = game.legal_moves();
    assert_eq!(moves.len(), 4);

    assert!(matches!(moves[0], (2, 3)));
    assert!(matches!(moves[1], (3, 2)));
    assert!(matches!(moves[2], (4, 5)));
    assert!(matches!(moves[3], (5, 4)));
}

#[test]
fn played_game_rechecks_available_positions_correctly() {
    let mut game = Game::new();

    let result = game.try_play((2, 3));
    assert!(result.is_ok());

    let moves = game.legal_moves();
    assert_eq!(moves.len(), 3);

    assert!(matches!(moves[0], (2, 2)));
    assert!(matches!(moves[1], (2, 4)));
    assert!(matches!(moves[2], (4, 2)));
}

#[test]
fn initial_game_has_four_single_capture_moves() {
    let mut game = Game::new();

    assert_eq!(game.current_player(), Piece::White);
    assert_eq!(game.state(), GameState::New);

    // the four centre squares in the canonical diagonal pattern
    assert_eq!(
        *game.board().get_coord_square_at((3, 3)).square(),
        BoardSquare::Played(Piece::Black)
    );
    assert_eq!(
        *game.board().get_coord_square_at((4, 4)).square(),
        BoardSquare::Played(Piece::Black)
    );
    assert_eq!(
        *game.board().get_coord_square_at((3, 4)).square(),
        BoardSquare::Played(Piece::White)
    );
    assert_eq!(
        *game.board().get_coord_square_at((4, 3)).square(),
        BoardSquare::Played(Piece::White)
    );

    // exactly 4 legal moves, each capturing exactly one square
    let moves = game.legal_moves();
    assert_eq!(moves, vec![(2, 3), (3, 2), (4, 5), (5, 4)]);
    for coord in moves {
        match game.check_play_new(coord) {
            PlayResult::ValidWithScore(play) => {
                assert_eq!(play.changed_coords().len(), 1);
                assert_eq!(play.score(), 2);
            }
            other => panic!("expected a valid play at {:?}, got {:?}", coord, other),
        }
    }
}

#[test]
fn rejection_leaves_game_unchanged() {
    let mut game = Game::new();
    let moves_before = game.legal_moves();

    assert!(game.try_play((0, 0)).is_err());

    assert_eq!(game.current_player(), Piece::White);
    assert_eq!(game.state(), GameState::New);
    assert_eq!(game.legal_moves(), moves_before);
    assert_eq!(
        *game.board().get_coord_square_at((0, 0)).square(),
        BoardSquare::Unplayed
    );
    assert_eq!(
        *game.board().get_coord_square_at((3, 3)).square(),
        BoardSquare::Played(Piece::Black)
    );
}

#[test]
fn forced_pass_returns_turn_to_mover() {
    // White may play (0,0), flipping Black's (0,1). Black's only other
    // piece (5,1) is walled in by White up to the edge, so Black has no
    // reply, while White can still play (5,0): the turn returns to White.
    let mut game = Game::from_position(
        vec![
            ((0, 1), Piece::Black),
            ((0, 2), Piece::White),
            ((5, 1), Piece::Black),
            ((5, 2), Piece::White),
            ((5, 3), Piece::White),
            ((5, 4), Piece::White),
            ((5, 5), Piece::White),
            ((5, 6), Piece::White),
            ((5, 7), Piece::White),
        ],
        Piece::White,
    );
    assert_eq!(game.current_player(), Piece::White);

    assert!(game.try_play((0, 0)).is_ok());

    assert_eq!(game.state(), GameState::PlayedAndPassed);
    assert_eq!(game.current_player(), Piece::White);
    assert!(!game.is_game_over());
    assert!(game.legal_moves().contains(&(5, 0)));
}

#[test]
fn game_ends_when_neither_player_can_move() {
    // After White plays (0,0) and flips (0,1), no black piece is left:
    // neither player has a legal move and the game is over.
    let mut game = Game::from_position(
        vec![((0, 1), Piece::Black), ((0, 2), Piece::White)],
        Piece::White,
    );
    assert!(!game.is_game_over());

    assert!(game.try_play((0, 0)).is_ok());

    assert!(game.is_game_over());
    assert_eq!(game.state(), GameState::GameOver);
    assert_eq!(game.legal_moves().len(), 0);

    // no further move attempt succeeds or changes anything
    assert!(game.try_play((0, 3)).is_err());
    assert!(game.try_play((7, 7)).is_err());
    assert_eq!(
        *game.board().get_coord_square_at((0, 1)).square(),
        BoardSquare::Played(Piece::White)
    );
}

#[test]
fn legal_moves_is_idempotent() {
    let game = Game::new();

    let first = game.legal_moves();
    let second = game.legal_moves();
    assert_eq!(first, second);
}

#[test]
fn last_row_and_column_square_is_evaluated() {
    // (7,7) flanks Black's (7,6) against White's (7,5): the scan must
    // reach the very last square and find the move there.
    let mut game = Game::from_position(
        vec![((7, 6), Piece::Black), ((7, 5), Piece::White)],
        Piece::White,
    );

    let moves = game.legal_moves();
    assert_eq!(moves, vec![(7, 7)]);

    assert!(game.try_play((7, 7)).is_ok());
    assert_eq!(
        *game.board().get_coord_square_at((7, 7)).square(),
        BoardSquare::Played(Piece::White)
    );
    assert_eq!(
        *game.board().get_coord_square_at((7, 6)).square(),
        BoardSquare::Played(Piece::White)
    );
}

#[test]
fn multi_capture_run_scores_correctly() {
    let mut game = Game::from_position(
        vec![
            ((0, 1), Piece::Black),
            ((0, 2), Piece::Black),
            ((0, 3), Piece::White),
        ],
        Piece::White,
    );

    let play = game.check_play_new((0, 0));
    assert_eq!(
        play,
        PlayResult::ValidWithScore(ValidPlay::new(
            3,
            (0, 0),
            vec![(0, 1), (0, 2)],
            Piece::White
        ))
    );
}

#[test]
fn setup_passes_turn_when_given_player_cannot_move() {
    // Black's corner piece cannot be flanked, so White has no move at
    // setup; Black can play (0,2), so the turn goes to Black at once.
    let game = Game::from_position(
        vec![((0, 0), Piece::Black), ((0, 1), Piece::White)],
        Piece::White,
    );

    assert_eq!(game.current_player(), Piece::Black);
    assert_eq!(game.state(), GameState::New);
    assert!(game.legal_moves().contains(&(0, 2)));
}

#[test]
fn setup_dead_position_is_game_over() {
    let mut game = Game::from_position(vec![((0, 0), Piece::Black)], Piece::White);

    assert!(game.is_game_over());
    assert_eq!(game.current_player(), Piece::White);
    assert_eq!(game.legal_moves().len(), 0);
    assert!(game.try_play((1, 1)).is_err());
}
