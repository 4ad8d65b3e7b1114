use vstd::prelude::*;

use crate::board::{in_bounds, init_square, Board, BOARD_SIZE};
use crate::piece::{BoardSquare, Piece};
use crate::play::{coords_view, PlayResult, ValidPlay};

verus! {

/// Where the turn state machine stands: before the first move, after an
/// ordinary move, after a move whose reply had to be skipped, or at the end
/// of the game.
#[derive(Debug, Clone, Copy, PartialEq, Eq, Structural)]
pub enum GameState {
    New,
    Played,
    PlayedAndPassed,
    GameOver,
}

/// The one user-facing failure: the requested square is occupied, off the
/// board, or captures nothing for the player to move. It is always
/// recoverable; nothing changes when it is returned.
#[derive(Debug, Clone)]
pub struct PlayError;

/// How many consecutive squares hold the opponent's piece along the ray
/// that starts one hop from (r, c) in direction (dr, dc). The fuel bounds
/// the walk; `BOARD_SIZE` hops always run off the grid first.
pub open spec fn opponent_run(
    board: Board,
    r: int,
    c: int,
    dr: int,
    dc: int,
    p: Piece,
    fuel: nat,
) -> nat
    decreases fuel,
{
    if fuel == 0 {
        0
    } else if board.square_at(r + dr, c + dc) == BoardSquare::Played(p.opponent()) {
        (1 + opponent_run(board, r + dr, c + dc, dr, dc, p, (fuel - 1) as nat)) as nat
    } else {
        0
    }
}

/// The squares that flip along one ray: the maximal run of opponent pieces
/// from hop 1 outward, kept only when the square just past the run holds
/// the mover's own piece, and discarded otherwise.
pub open spec fn ray_captures(board: Board, r: int, c: int, dr: int, dc: int, p: Piece) -> Seq<
    (int, int),
> {
    let n = opponent_run(board, r, c, dr, dc, p, BOARD_SIZE as nat);
    if board.square_at(r + (n + 1) * dr, c + (n + 1) * dc) == BoardSquare::Played(p) {
        Seq::new(n, |i: int| (r + (i + 1) * dr, c + (i + 1) * dc))
    } else {
        Seq::empty()
    }
}

/// The 8 compass directions, in the order the evaluator scans them.
pub open spec fn direction(i: int) -> (int, int) {
    if i == 0 {
        (0, 1)
    } else if i == 1 {
        (1, 0)
    } else if i == 2 {
        (1, 1)
    } else if i == 3 {
        (0, -1)
    } else if i == 4 {
        (-1, 0)
    } else if i == 5 {
        (-1, -1)
    } else if i == 6 {
        (1, -1)
    } else {
        (-1, 1)
    }
}

/// The captures of the first `d` scan directions, concatenated in scan
/// order.
pub open spec fn move_captures_upto(board: Board, r: int, c: int, p: Piece, d: int) -> Seq<
    (int, int),
>
    decreases d,
{
    if d <= 0 {
        Seq::empty()
    } else {
        move_captures_upto(board, r, c, p, d - 1) + ray_captures(
            board,
            r,
            c,
            direction(d - 1).0,
            direction(d - 1).1,
            p,
        )
    }
}

/// Every square that flips when `p` plays at (r, c): the union of the 8
/// rays, in direction-scan order.
pub open spec fn move_captures(board: Board, r: int, c: int, p: Piece) -> Seq<(int, int)> {
    move_captures_upto(board, r, c, p, 8)
}

/// A move is legal exactly when its target exists, is empty, and flips at
/// least one enemy square.
pub open spec fn is_legal_move(board: Board, r: int, c: int, p: Piece) -> bool {
    &&& in_bounds(r, c)
    &&& board.square_at(r, c) == BoardSquare::Unplayed
    &&& move_captures(board, r, c, p).len() > 0
}

pub open spec fn has_legal_move(board: Board, p: Piece) -> bool {
    exists|r: int, c: int| is_legal_move(board, r, c, p)
}

/// The legal targets among the first `n` squares in row-major order.
pub open spec fn legal_coords_upto(board: Board, p: Piece, n: int) -> Seq<(int, int)>
    decreases n,
{
    if n <= 0 {
        Seq::empty()
    } else {
        let r = (n - 1) / (BOARD_SIZE as int);
        let c = (n - 1) % (BOARD_SIZE as int);
        legal_coords_upto(board, p, n - 1) + if is_legal_move(board, r, c, p) {
            seq![(r, c)]
        } else {
            Seq::empty()
        }
    }
}

/// Every legal target for `p`, in row-major scan order over all 64
/// squares.
pub open spec fn legal_coords(board: Board, p: Piece) -> Seq<(int, int)> {
    legal_coords_upto(board, p, (BOARD_SIZE * BOARD_SIZE) as int)
}

/// The play cached for target (r, c): right square, exactly the captures
/// of the move, the acting piece, and a score of captures plus one.
pub open spec fn play_matches(play: ValidPlay, board: Board, r: int, c: int, p: Piece) -> bool {
    &&& play.spec_coord().0 as int == r
    &&& play.spec_coord().1 as int == c
    &&& play.spec_changed() == move_captures(board, r, c, p)
    &&& play.spec_player() == p
    &&& play.spec_score() as int == move_captures(board, r, c, p).len() + 1
}

/// How a committed move rewrites the board: the target and every captured
/// square now hold the mover's piece, and no other square moves.
pub open spec fn played_board(pre: Board, post: Board, r: int, c: int, p: Piece) -> bool {
    forall|i: int, j: int|
        #[trigger] post.square_at(i, j) == if (i == r && j == c) || move_captures(
            pre,
            r,
            c,
            p,
        ).contains((i, j)) {
            BoardSquare::Played(p)
        } else {
            pre.square_at(i, j)
        }
}

proof fn lemma_opponent_run_le_fuel(
    board: Board,
    r: int,
    c: int,
    dr: int,
    dc: int,
    p: Piece,
    fuel: nat,
)
    ensures
        opponent_run(board, r, c, dr, dc, p, fuel) <= fuel,
    decreases fuel,
{
    if fuel > 0 && board.square_at(r + dr, c + dc) == BoardSquare::Played(p.opponent()) {
        lemma_opponent_run_le_fuel(board, r + dr, c + dc, dr, dc, p, (fuel - 1) as nat);
    }
}

/// Hop `j` of a run of length at least `j` holds the opponent's piece.
proof fn lemma_opponent_run_square_at(
    board: Board,
    r: int,
    c: int,
    dr: int,
    dc: int,
    p: Piece,
    fuel: nat,
    j: int,
)
    requires
        1 <= j <= opponent_run(board, r, c, dr, dc, p, fuel),
    ensures
        board.square_at(r + j * dr, c + j * dc) == BoardSquare::Played(p.opponent()),
    decreases fuel,
{
    assert(r + 1 * dr == r + dr) by (nonlinear_arith);
    assert(c + 1 * dc == c + dc) by (nonlinear_arith);
    if j > 1 {
        lemma_opponent_run_square_at(board, r + dr, c + dc, dr, dc, p, (fuel - 1) as nat, j - 1);
        assert((r + dr) + (j - 1) * dr == r + j * dr) by (nonlinear_arith);
        assert((c + dc) + (j - 1) * dc == c + j * dc) by (nonlinear_arith);
    }
}

/// The first `k` hops along the ray from (r, c) all hold the opponent's
/// piece.
pub open spec fn opp_prefix(
    board: Board,
    r: int,
    c: int,
    dr: int,
    dc: int,
    p: Piece,
    k: int,
) -> bool
    decreases k,
{
    k <= 0 || (board.square_at(r + k * dr, c + k * dc) == BoardSquare::Played(p.opponent())
        && opp_prefix(board, r, c, dr, dc, p, k - 1))
}

proof fn lemma_opp_prefix_at(board: Board, r: int, c: int, dr: int, dc: int, p: Piece, k: int, j: int)
    requires
        opp_prefix(board, r, c, dr, dc, p, k),
        1 <= j <= k,
    ensures
        board.square_at(r + j * dr, c + j * dc) == BoardSquare::Played(p.opponent()),
    decreases k,
{
    if j < k {
        lemma_opp_prefix_at(board, r, c, dr, dc, p, k - 1, j);
    }
}

proof fn lemma_opp_prefix_shift(board: Board, r: int, c: int, dr: int, dc: int, p: Piece, k: int)
    requires
        1 <= k,
        opp_prefix(board, r, c, dr, dc, p, k),
    ensures
        opp_prefix(board, r + dr, c + dc, dr, dc, p, k - 1),
    decreases k,
{
    if k >= 2 {
        lemma_opp_prefix_shift(board, r, c, dr, dc, p, k - 1);
        assert((r + dr) + (k - 1) * dr == r + k * dr) by (nonlinear_arith);
        assert((c + dc) + (k - 1) * dc == c + k * dc) by (nonlinear_arith);
    }
}

/// A run is pinned down by what the board shows: if the first k hops hold
/// the opponent's piece and hop k + 1 does not, the run is exactly k.
proof fn lemma_opponent_run_pinned(
    board: Board,
    r: int,
    c: int,
    dr: int,
    dc: int,
    p: Piece,
    k: nat,
    fuel: nat,
)
    requires
        k <= fuel,
        opp_prefix(board, r, c, dr, dc, p, k as int),
        board.square_at(r + (k + 1) * dr, c + (k + 1) * dc) != BoardSquare::Played(p.opponent()),
    ensures
        opponent_run(board, r, c, dr, dc, p, fuel) == k,
    decreases k,
{
    assert(r + 1 * dr == r + dr) by (nonlinear_arith);
    assert(c + 1 * dc == c + dc) by (nonlinear_arith);
    if k == 0 {
    } else {
        lemma_opp_prefix_at(board, r, c, dr, dc, p, k as int, 1);
        lemma_opp_prefix_shift(board, r, c, dr, dc, p, k as int);
        assert((r + dr) + ((k - 1) + 1) * dr == r + (k + 1) * dr) by (nonlinear_arith);
        assert((c + dc) + ((k - 1) + 1) * dc == c + (k + 1) * dc) by (nonlinear_arith);
        lemma_opponent_run_pinned(
            board,
            r + dr,
            c + dc,
            dr,
            dc,
            p,
            (k - 1) as nat,
            (fuel - 1) as nat,
        );
    }
}

/// No move flips more than 8 squares per scanned direction.
proof fn lemma_move_captures_upto_len(board: Board, r: int, c: int, p: Piece, d: int)
    requires
        0 <= d,
    ensures
        move_captures_upto(board, r, c, p, d).len() <= 8 * d,
    decreases d,
{
    if d > 0 {
        lemma_move_captures_upto_len(board, r, c, p, d - 1);
        lemma_opponent_run_le_fuel(
            board,
            r,
            c,
            direction(d - 1).0,
            direction(d - 1).1,
            p,
            BOARD_SIZE as nat,
        );
    }
}

proof fn lemma_legal_coords_upto_sound(board: Board, p: Piece, n: int)
    requires
        0 <= n,
    ensures
        forall|i: int|
            0 <= i < legal_coords_upto(board, p, n).len() ==> is_legal_move(
                board,
                (#[trigger] legal_coords_upto(board, p, n)[i]).0,
                legal_coords_upto(board, p, n)[i].1,
                p,
            ),
    decreases n,
{
    if n > 0 {
        lemma_legal_coords_upto_sound(board, p, n - 1);
        let prev = legal_coords_upto(board, p, n - 1);
        let whole = legal_coords_upto(board, p, n);
        assert forall|i: int|
            0 <= i < whole.len() implies is_legal_move(
            board,
            (#[trigger] whole[i]).0,
            whole[i].1,
            p,
        ) by {
            if i < prev.len() {
                assert(whole[i] == prev[i]);
            }
        }
    }
}

proof fn lemma_legal_coords_upto_complete(board: Board, p: Piece, n: int, r: int, c: int)
    requires
        is_legal_move(board, r, c, p),
        0 <= r < BOARD_SIZE,
        0 <= c < BOARD_SIZE,
        r * (BOARD_SIZE as int) + c < n,
    ensures
        legal_coords_upto(board, p, n).contains((r, c)),
    decreases n,
{
    let m = n - 1;
    let prev = legal_coords_upto(board, p, m);
    let whole = legal_coords_upto(board, p, n);
    if r * (BOARD_SIZE as int) + c == m {
        assert(m / (BOARD_SIZE as int) == r && m % (BOARD_SIZE as int) == c) by (nonlinear_arith)
            requires
                m == r * (BOARD_SIZE as int) + c,
                0 <= c < BOARD_SIZE,
                0 <= r,
                BOARD_SIZE == 8,
        ;
        assert(whole[prev.len() as int] == (r, c));
        assert(whole.contains((r, c)));
    } else {
        lemma_legal_coords_upto_complete(board, p, m, r, c);
        let i = choose|i: int| 0 <= i < prev.len() && #[trigger] prev[i] == (r, c);
        assert(whole[i] == (r, c));
        assert(whole.contains((r, c)));
    }
}

/// Legal-move discovery is sound and exhaustive: the scan's list holds a
/// square exactly when the move there is legal, for every one of the 64
/// squares, the last row and column included.
pub proof fn lemma_legal_coords_complete(board: Board, p: Piece)
    ensures
        forall|r: int, c: int|
            legal_coords(board, p).contains((r, c)) <==> #[trigger] is_legal_move(board, r, c, p),
{
    lemma_legal_coords_upto_sound(board, p, (BOARD_SIZE * BOARD_SIZE) as int);
    assert forall|r: int, c: int|
        legal_coords(board, p).contains((r, c)) <==> #[trigger] is_legal_move(
        board,
        r,
        c,
        p,
    ) by {
        if legal_coords(board, p).contains((r, c)) {
            let i = choose|i: int|
                0 <= i < legal_coords(board, p).len() && #[trigger] legal_coords(board, p)[i] == (
                r,
                c,
                );
            assert(is_legal_move(board, legal_coords(board, p)[i].0, legal_coords(board, p)[i].1, p));
        }
        if is_legal_move(board, r, c, p) {
            assert(r * (BOARD_SIZE as int) + c < (BOARD_SIZE * BOARD_SIZE) as int) by (nonlinear_arith)
                requires
                    0 <= r < BOARD_SIZE,
                    0 <= c < BOARD_SIZE,
                    BOARD_SIZE == 8,
            ;
            lemma_legal_coords_upto_complete(
                board,
                p,
                (BOARD_SIZE * BOARD_SIZE) as int,
                r,
                c,
            );
        }
    }
}

/// An empty scan list means no legal move at all, and a non-empty one
/// exhibits a legal move.
proof fn lemma_legal_coords_empty(board: Board, p: Piece)
    ensures
        legal_coords(board, p).len() == 0 <==> !has_legal_move(board, p),
{
    lemma_legal_coords_complete(board, p);
    if legal_coords(board, p).len() == 0 {
        assert forall|r: int, c: int| !(#[trigger] is_legal_move(board, r, c, p)) by {
            if is_legal_move(board, r, c, p) {
                assert(legal_coords(board, p).contains((r, c)));
            }
        }
    } else {
        let e = legal_coords(board, p)[0];
        lemma_legal_coords_upto_sound(board, p, (BOARD_SIZE * BOARD_SIZE) as int);
        assert(is_legal_move(board, e.0, e.1, p));
    }
}

/// Every square a move flips lies on the board: each is a hop of an
/// opponent run, and only existing squares hold pieces.
proof fn lemma_move_captures_upto_in_bounds(board: Board, r: int, c: int, p: Piece, d: int)
    requires
        board.wf(),
        0 <= d <= 8,
    ensures
        forall|i: int|
            0 <= i < move_captures_upto(board, r, c, p, d).len() ==> in_bounds(
                (#[trigger] move_captures_upto(board, r, c, p, d)[i]).0,
                move_captures_upto(board, r, c, p, d)[i].1,
            ),
    decreases d,
{
    if d > 0 {
        lemma_move_captures_upto_in_bounds(board, r, c, p, d - 1);
        let prev = move_captures_upto(board, r, c, p, d - 1);
        let whole = move_captures_upto(board, r, c, p, d);
        let dr = direction(d - 1).0;
        let dc = direction(d - 1).1;
        let ray = ray_captures(board, r, c, dr, dc, p);
        assert forall|i: int|
            0 <= i < whole.len() implies in_bounds((#[trigger] whole[i]).0, whole[i].1) by {
            if i < prev.len() {
                assert(whole[i] == prev[i]);
            } else {
                let k = i - prev.len();
                assert(whole[i] == ray[k]);
                assert(ray[k] == (r + (k + 1) * dr, c + (k + 1) * dc));
                lemma_opponent_run_square_at(board, r, c, dr, dc, p, BOARD_SIZE as nat, k + 1);
                board.lemma_square_at_classifies();
            }
        }
    }
}

/// The standard starting position is live: (2, 3) is a legal move for
/// White, flipping Black's (3, 3) against White's (4, 3).
proof fn lemma_initial_board_has_move(board: Board)
    requires
        board.wf(),
        forall|r: int, c: int|
            in_bounds(r, c) ==> #[trigger] board.square_at(r, c) == init_square(r, c),
    ensures
        has_legal_move(board, Piece::White),
{
    assert(board.square_at(3, 3) == BoardSquare::Played(Piece::Black));
    assert(board.square_at(4, 3) == BoardSquare::Played(Piece::White));
    assert(opponent_run(board, 3, 3, 1, 0, Piece::White, 7) == 0);
    assert(opponent_run(board, 2, 3, 1, 0, Piece::White, 8) == 1);
    assert(board.square_at((2 + 2 * 1) as int, (3 + 2 * 0) as int) == BoardSquare::Played(Piece::White));
    assert(ray_captures(board, 2, 3, 1, 0, Piece::White).len() == 1);
    assert(move_captures(board, 2, 3, Piece::White).len() >= 1) by {
        reveal_with_fuel(move_captures_upto, 9);
    }
    assert(board.square_at(2, 3) == BoardSquare::Unplayed);
    assert(is_legal_move(board, 2, 3, Piece::White));
}

/// The square a setup list leaves at (r, c): the piece of the last entry
/// for that coordinate, or an empty square when no entry names it.
pub open spec fn placed_square(placed: Seq<((usize, usize), Piece)>, r: int, c: int) -> BoardSquare
    decreases placed.len(),
{
    if placed.len() == 0 {
        BoardSquare::Unplayed
    } else if placed.last().0.0 as int == r && placed.last().0.1 as int == c {
        BoardSquare::Played(placed.last().1)
    } else {
        placed_square(placed.drop_last(), r, c)
    }
}

/// The whole state of one match: the board, the player to move, the cached
/// legal plays for that player, and the turn tag.
pub struct Game {
    board: Board,
    current_player: Piece,
    available_positions: Vec<ValidPlay>,
    state: GameState,
}

impl Game {
    pub closed spec fn spec_board(&self) -> Board {
        self.board
    }

    pub closed spec fn spec_player(&self) -> Piece {
        self.current_player
    }

    pub closed spec fn spec_state(&self) -> GameState {
        self.state
    }

    pub closed spec fn spec_plays(&self) -> Seq<ValidPlay> {
        self.available_positions@
    }

    /// The move cache lists exactly the legal plays of the player to move,
    /// in scan order, each with its exact capture set.
    pub open spec fn cache_matches(&self) -> bool {
        &&& self.spec_plays().len() == legal_coords(self.spec_board(), self.spec_player()).len()
        &&& forall|i: int|
            0 <= i < self.spec_plays().len() ==> play_matches(
                #[trigger] self.spec_plays()[i],
                self.spec_board(),
                legal_coords(self.spec_board(), self.spec_player())[i].0,
                legal_coords(self.spec_board(), self.spec_player())[i].1,
                self.spec_player(),
            )
    }

    /// Well-formedness: the board is sound, the cache is in step with it,
    /// and the state tag reads GameOver exactly when no legal move is left
    /// for either player.
    pub open spec fn wf(&self) -> bool {
        &&& self.spec_board().wf()
        &&& self.cache_matches()
        &&& self.spec_state() is GameOver <==> !has_legal_move(self.spec_board(), Piece::Black)
            && !has_legal_move(self.spec_board(), Piece::White)
    }

    /// The piece of the player who is not to move.
    pub fn current_opponent(&self) -> (r: Piece)
        ensures
            r == self.spec_player().opponent(),
    {
        match self.current_player {
            Piece::Black => Piece::White,
            Piece::White => Piece::Black,
        }
    }

    /// The player whose turn it is.
    pub fn current_player(&self) -> (r: Piece)
        ensures
            r == self.spec_player(),
    {
        self.current_player
    }

    /// Where the turn state machine stands.
    pub fn state(&self) -> (r: GameState)
        ensures
            r == self.spec_state(),
    {
        self.state
    }

    /// True exactly when the game has ended: neither player has a legal
    /// move left, and every further move attempt fails. The state tag and
    /// the dead board report the same thing.
    pub fn is_game_over(&self) -> (r: bool)
        ensures
            r == (self.spec_state() is GameOver),
            self.wf() ==> (r <==> !has_legal_move(self.spec_board(), Piece::Black)
                && !has_legal_move(self.spec_board(), Piece::White)),
    {
        match self.state {
            GameState::GameOver => true,
            _ => false,
        }
    }

    /// The board, read-only, for display layers to render.
    pub fn board(&self) -> (r: &Board)
        ensures
            *r == self.spec_board(),
    {
        &self.board
    }

    /// The 8 compass directions, in scan order.
    fn get_direction_vectors() -> (r: [(isize, isize); 8])
        ensures
            forall|i: int|
                0 <= i < 8 ==> ((#[trigger] r[i]).0 as int, r[i].1 as int) == direction(i),
    {
        [(0isize, 1isize), (1, 0), (1, 1), (0, -1), (-1, 0), (-1, -1), (1, -1), (-1, 1)]
    }

    /// One ray of the scan: walk outward from `coord` one hop at a time,
    /// collecting the opponent's squares, and keep them only if the walk
    /// ends on the current player's own piece.
    fn get_captured_cords(&self, coord: (usize, usize), vector: (isize, isize)) -> (r: Vec<
        (usize, usize),
    >)
        requires
            self.spec_board().wf(),
            in_bounds(coord.0 as int, coord.1 as int),
            -1 <= vector.0 <= 1,
            -1 <= vector.1 <= 1,
            !(vector.0 == 0 && vector.1 == 0),
        ensures
            coords_view(r@) == ray_captures(
                self.spec_board(),
                coord.0 as int,
                coord.1 as int,
                vector.0 as int,
                vector.1 as int,
                self.spec_player(),
            ),
            forall|j: int|
                0 <= j < r@.len() ==> in_bounds(
                    (#[trigger] r@[j]).0 as int,
                    r@[j].1 as int,
                ),
    {
        let ghost b = self.spec_board();
        let ghost rr = coord.0 as int;
        let ghost cc = coord.1 as int;
        let ghost dr = vector.0 as int;
        let ghost dc = vector.1 as int;
        let ghost p = self.spec_player();
        let mut hops: usize = 1;
        let mut switchable_coords: Vec<(usize, usize)> = Vec::new();
        let opponent = self.current_opponent();
        loop
            invariant
                self.spec_board().wf(),
                b == self.spec_board(),
                rr == coord.0 as int && cc == coord.1 as int,
                dr == vector.0 as int && dc == vector.1 as int,
                p == self.spec_player(),
                in_bounds(rr, cc),
                -1 <= vector.0 <= 1,
                -1 <= vector.1 <= 1,
                !(vector.0 == 0 && vector.1 == 0),
                opponent == p.opponent(),
                1 <= hops <= BOARD_SIZE,
                opp_prefix(b, rr, cc, dr, dc, p, hops - 1),
                switchable_coords@.len() == hops - 1,
                forall|j: int|
                    0 <= j < hops - 1 ==> (#[trigger] switchable_coords@[j]).0 as int == rr + (j
                        + 1) * dr && switchable_coords@[j].1 as int == cc + (j + 1) * dc,
                forall|j: int|
                    0 <= j < hops - 1 ==> in_bounds(
                        (#[trigger] switchable_coords@[j]).0 as int,
                        switchable_coords@[j].1 as int,
                    ),
            decreases BOARD_SIZE - hops,
        {
            let current_coord_square = self.board.get_coord_square_towards(coord, vector, hops);
            let ghost pr = rr + dr * (hops as int);
            let ghost pc = cc + dc * (hops as int);
            proof {
                assert(dr * (hops as int) == (hops as int) * dr) by (nonlinear_arith);
                assert(dc * (hops as int) == (hops as int) * dc) by (nonlinear_arith);
                self.board.lemma_square_at_classifies();
            }
            match current_coord_square.square() {
                BoardSquare::Played(piece) => {
                    if *piece == opponent {
                        proof {
                            assert(b.square_at(pr, pc) == BoardSquare::Played(p.opponent()));
                            assert(!(b.square_at(pr, pc) is OutOfBounds));
                            assert(in_bounds(pr, pc));
                            if hops == BOARD_SIZE {
                                assert(dr * 8 == 8 * dr) by (nonlinear_arith);
                                assert(dc * 8 == 8 * dc) by (nonlinear_arith);
                                assert(pr == rr + 8 * dr && pc == cc + 8 * dc);
                                assert(false);
                            }
                        }
                        switchable_coords.push(*current_coord_square.coord());
                        proof {
                            assert(opp_prefix(b, rr, cc, dr, dc, p, hops as int));
                        }
                        hops = hops + 1;
                    } else {
                        proof {
                            assert(b.square_at(pr, pc) == BoardSquare::Played(p));
                            lemma_opponent_run_pinned(
                                b,
                                rr,
                                cc,
                                dr,
                                dc,
                                p,
                                (hops - 1) as nat,
                                BOARD_SIZE as nat,
                            );
                            let n = opponent_run(b, rr, cc, dr, dc, p, BOARD_SIZE as nat);
                            assert(n == hops - 1);
                            assert(b.square_at(rr + (n + 1) * dr, cc + (n + 1) * dc)
                                == BoardSquare::Played(p));
                            assert(coords_view(switchable_coords@) =~= ray_captures(
                                b,
                                rr,
                                cc,
                                dr,
                                dc,
                                p,
                            ));
                        }
                        return switchable_coords;
                    }
                },
                _ => {
                    proof {
                        assert(b.square_at(pr, pc) != BoardSquare::Played(p.opponent()));
                        lemma_opponent_run_pinned(
                            b,
                            rr,
                            cc,
                            dr,
                            dc,
                            p,
                            (hops - 1) as nat,
                            BOARD_SIZE as nat,
                        );
                        let n = opponent_run(b, rr, cc, dr, dc, p, BOARD_SIZE as nat);
                        assert(n == hops - 1);
                        assert(b.square_at(rr + (n + 1) * dr, cc + (n + 1) * dc)
                            != BoardSquare::Played(p));
                        assert(coords_view(Seq::<(usize, usize)>::empty()) =~= ray_captures(
                            b,
                            rr,
                            cc,
                            dr,
                            dc,
                            p,
                        ));
                    }
                    return Vec::new();
                },
            }
        }
    }

    /// Judge one candidate square for the player to move: scan the 8
    /// directions and report either the full play or why there is none.
    pub fn check_play_new(&mut self, coord: (usize, usize)) -> (r: PlayResult)
        requires
            old(self).spec_board().wf(),
        ensures
            *final(self) == *old(self),
            match r {
                PlayResult::ValidWithScore(play) => is_legal_move(
                    old(self).spec_board(),
                    coord.0 as int,
                    coord.1 as int,
                    old(self).spec_player(),
                ) && play_matches(
                    play,
                    old(self).spec_board(),
                    coord.0 as int,
                    coord.1 as int,
                    old(self).spec_player(),
                ),
                PlayResult::Invalid => !is_legal_move(
                    old(self).spec_board(),
                    coord.0 as int,
                    coord.1 as int,
                    old(self).spec_player(),
                ),
                PlayResult::Undefined => false,
            },
    {
        let ghost b = self.spec_board();
        let ghost rr = coord.0 as int;
        let ghost cc = coord.1 as int;
        let ghost p = self.spec_player();
        let target = self.board.get_coord_square_at(coord);
        match target.square() {
            BoardSquare::Played(_) => PlayResult::Invalid,
            BoardSquare::OutOfBounds => PlayResult::Invalid,
            BoardSquare::Unplayed => {
                proof {
                    self.board.lemma_square_at_classifies();
                    assert(in_bounds(rr, cc));
                }
                let mut captured_coords: Vec<(usize, usize)> = Vec::new();
                let vectors = Game::get_direction_vectors();
                let mut d: usize = 0;
                while d < 8
                    invariant
                        d <= 8,
                        b == self.spec_board(),
                        p == self.spec_player(),
                        rr == coord.0 as int && cc == coord.1 as int,
                        self.spec_board().wf(),
                        in_bounds(rr, cc),
                        forall|i: int|
                            0 <= i < 8 ==> ((#[trigger] vectors[i]).0 as int, vectors[i].1 as int)
                                == direction(i),
                        coords_view(captured_coords@) == move_captures_upto(b, rr, cc, p, d as int),
                    decreases 8 - d,
                {
                    let vector = vectors[d];
                    proof {
                        assert((vector.0 as int, vector.1 as int) == direction(d as int));
                        assert(!(vector.0 == 0 && vector.1 == 0));
                    }
                    let mut part = self.get_captured_cords(coord, vector);
                    let ghost prev = captured_coords@;
                    let ghost part_view = part@;
                    captured_coords.append(&mut part);
                    proof {
                        assert(coords_view(prev + part_view) =~= coords_view(prev) + coords_view(
                            part_view,
                        ));
                        assert(coords_view(captured_coords@) =~= move_captures_upto(
                            b,
                            rr,
                            cc,
                            p,
                            d as int + 1,
                        ));
                    }
                    d = d + 1;
                }
                proof {
                    lemma_move_captures_upto_len(b, rr, cc, p, 8);
                    assert(captured_coords@.len() == move_captures(b, rr, cc, p).len());
                }
                if captured_coords.len() == 0 {
                    PlayResult::Invalid
                } else {
                    let score = captured_coords.len() + 1;
                    PlayResult::ValidWithScore(
                        ValidPlay::new(score, coord, captured_coords, self.current_player),
                    )
                }
            },
        }
    }

    /// Rebuild the legal-move cache for the player to move, examining all
    /// 64 squares in row-major order.
    fn check_available_positions(&mut self)
        requires
            old(self).spec_board().wf(),
        ensures
            final(self).spec_board() == old(self).spec_board(),
            final(self).spec_player() == old(self).spec_player(),
            final(self).spec_state() == old(self).spec_state(),
            final(self).cache_matches(),
    {
        let ghost b = self.spec_board();
        let ghost p = self.spec_player();
        self.available_positions = Vec::new();
        let mut row: usize = 0;
        while row < BOARD_SIZE
            invariant
                row <= BOARD_SIZE,
                b == self.spec_board(),
                p == self.spec_player(),
                self.spec_state() == old(self).spec_state(),
                b == old(self).spec_board(),
                p == old(self).spec_player(),
                self.spec_board().wf(),
                self.spec_plays().len() == legal_coords_upto(b, p, 8 * row as int).len(),
                forall|i: int|
                    0 <= i < self.spec_plays().len() ==> play_matches(
                        #[trigger] self.spec_plays()[i],
                        b,
                        legal_coords_upto(b, p, 8 * row as int)[i].0,
                        legal_coords_upto(b, p, 8 * row as int)[i].1,
                        p,
                    ),
            decreases BOARD_SIZE - row,
        {
            let mut column: usize = 0;
            while column < BOARD_SIZE
                invariant
                    row < BOARD_SIZE,
                    column <= BOARD_SIZE,
                    b == self.spec_board(),
                    p == self.spec_player(),
                    self.spec_state() == old(self).spec_state(),
                    b == old(self).spec_board(),
                    p == old(self).spec_player(),
                    self.spec_board().wf(),
                    self.spec_plays().len() == legal_coords_upto(
                        b,
                        p,
                        8 * row as int + column as int,
                    ).len(),
                    forall|i: int|
                        0 <= i < self.spec_plays().len() ==> play_matches(
                            #[trigger] self.spec_plays()[i],
                            b,
                            legal_coords_upto(b, p, 8 * row as int + column as int)[i].0,
                            legal_coords_upto(b, p, 8 * row as int + column as int)[i].1,
                            p,
                        ),
                decreases BOARD_SIZE - column,
            {
                let ghost n = 8 * row as int + column as int;
                let ghost prev = legal_coords_upto(b, p, n);
                let ghost whole = legal_coords_upto(b, p, n + 1);
                proof {
                    assert(n / (BOARD_SIZE as int) == row as int && n % (BOARD_SIZE as int)
                        == column as int) by (nonlinear_arith)
                        requires
                            n == 8 * row as int + column as int,
                            0 <= column < BOARD_SIZE,
                            0 <= row,
                            BOARD_SIZE == 8,
                    ;
                }
                let result = self.check_play_new((row, column));
                match result {
                    PlayResult::ValidWithScore(play) => {
                        proof {
                            assert(whole =~= prev + seq![(row as int, column as int)]);
                        }
                        let ghost old_plays = self.spec_plays();
                        self.available_positions.push(play);
                        proof {
                            assert forall|i: int|
                                0 <= i < self.spec_plays().len() implies play_matches(
                                #[trigger] self.spec_plays()[i],
                                b,
                                whole[i].0,
                                whole[i].1,
                                p,
                            ) by {
                                if i < old_plays.len() {
                                    assert(self.spec_plays()[i] == old_plays[i]);
                                    assert(whole[i] == prev[i]);
                                } else {
                                    assert(self.spec_plays()[i] == play);
                                    assert(whole[i] == (row as int, column as int));
                                }
                            }
                        }
                    },
                    _ => {
                        proof {
                            assert(whole =~= prev);
                        }
                    },
                }
                column = column + 1;
            }
            row = row + 1;
        }
        proof {
            assert(8 * (BOARD_SIZE as int) == (BOARD_SIZE * BOARD_SIZE) as int);
        }
    }

    /// A fresh match: standard starting position, White to move, legal
    /// moves already computed for White.
    pub fn new() -> (game: Game)
        ensures
            game.wf(),
            game.spec_player() == Piece::White,
            game.spec_state() is New,
            game.spec_board().spec_player() == Piece::White,
            forall|r: int, c: int|
                in_bounds(r, c) ==> #[trigger] game.spec_board().square_at(r, c) == init_square(
                    r,
                    c,
                ),
    {
        let mut game = Game {
            board: Board::new(),
            current_player: Piece::White,
            available_positions: Vec::new(),
            state: GameState::New,
        };
        game.check_available_positions();
        proof {
            lemma_initial_board_has_move(game.spec_board());
        }
        game
    }

    /// The target squares the player to move may choose, in scan order.
    /// Reading this list changes nothing: without a move in between, two
    /// reads see the same list.
    pub fn legal_moves(&self) -> (r: Vec<(usize, usize)>)
        requires
            self.wf(),
        ensures
            coords_view(r@) == legal_coords(self.spec_board(), self.spec_player()),
    {
        let mut out: Vec<(usize, usize)> = Vec::new();
        let n = self.available_positions.len();
        let mut i: usize = 0;
        while i < n
            invariant
                i <= n,
                n == self.spec_plays().len(),
                self.wf(),
                out@.len() == i,
                forall|j: int|
                    0 <= j < i ==> (#[trigger] out@[j]) == self.spec_plays()[j].spec_coord(),
            decreases n - i,
        {
            out.push(*self.available_positions[i].coord());
            i = i + 1;
        }
        proof {
            let legal = legal_coords(self.spec_board(), self.spec_player());
            assert forall|j: int| 0 <= j < out@.len() implies coords_view(out@)[j] == legal[j] by {
                assert(play_matches(
                    self.spec_plays()[j],
                    self.spec_board(),
                    legal[j].0,
                    legal[j].1,
                    self.spec_player(),
                ));
                assert(legal[j] == (legal[j].0, legal[j].1));
            }
            assert(coords_view(out@) =~= legal);
        }
        out
    }

    /// The sole mutating entry point. An unlisted square fails with the
    /// recoverable error and changes nothing. A legal square commits the
    /// target and its captures in one batch, then advances the turn: to
    /// the opponent when they can answer; back to the mover, as a forced
    /// pass, when only the mover can still move; to the end of the game
    /// when neither player can.
    pub fn try_play(&mut self, coord: (usize, usize)) -> (r: Result<(), PlayError>)
        requires
            old(self).wf(),
        ensures
            final(self).wf(),
            ({
                let b0 = old(self).spec_board();
                let p0 = old(self).spec_player();
                let rr = coord.0 as int;
                let cc = coord.1 as int;
                if is_legal_move(b0, rr, cc, p0) {
                    &&& r is Ok
                    &&& played_board(b0, final(self).spec_board(), rr, cc, p0)
                    &&& final(self).spec_board().spec_player() == b0.spec_player()
                    &&& (if has_legal_move(final(self).spec_board(), p0.opponent()) {
                        final(self).spec_player() == p0.opponent() && final(self).spec_state()
                            is Played
                    } else if has_legal_move(final(self).spec_board(), p0) {
                        final(self).spec_player() == p0 && final(self).spec_state()
                            is PlayedAndPassed
                    } else {
                        final(self).spec_player() == p0 && final(self).spec_state() is GameOver
                    })
                } else {
                    r is Err && *final(self) == *old(self)
                }
            }),
    {
        let ghost b0 = self.spec_board();
        let ghost p0 = self.spec_player();
        let ghost rr = coord.0 as int;
        let ghost cc = coord.1 as int;
        let ghost legal = legal_coords(b0, p0);
        let n = self.available_positions.len();
        let mut idx: usize = 0;
        while idx < n
            invariant
                idx <= n,
                *self == *old(self),
                self.wf(),
                b0 == self.spec_board(),
                p0 == self.spec_player(),
                legal == legal_coords(b0, p0),
                rr == coord.0 as int && cc == coord.1 as int,
                n == self.spec_plays().len(),
                forall|j: int|
                    0 <= j < idx ==> (#[trigger] self.spec_plays()[j].spec_coord()) != coord,
            decreases n - idx,
        {
            let play_coord = *self.available_positions[idx].coord();
            if play_coord.0 == coord.0 && play_coord.1 == coord.1 {
                proof {
                    assert(play_matches(self.spec_plays()[idx as int], b0, legal[idx as int].0,
                        legal[idx as int].1, p0));
                    assert(legal[idx as int] == (rr, cc));
                    lemma_legal_coords_upto_sound(b0, p0, (BOARD_SIZE * BOARD_SIZE) as int);
                    assert(is_legal_move(b0, rr, cc, p0));
                }
                let ghost found_play = self.spec_plays()[idx as int];
                let mut coords_to_flip = Game::copy_coords(
                    self.available_positions[idx].changed_coords(),
                );
                coords_to_flip.push(coord);
                let player = *self.available_positions[idx].player();
                let score = self.available_positions[idx].score();
                let commit = ValidPlay::new(score, coord, coords_to_flip, player);
                proof {
                    let captures = move_captures(b0, rr, cc, p0);
                    assert(commit.spec_changed() =~= captures.push((rr, cc)));
                    lemma_move_captures_upto_in_bounds(b0, rr, cc, p0, 8);
                    assert forall|j: int|
                        0 <= j < commit.spec_changed().len() implies in_bounds(
                        (#[trigger] commit.spec_changed()[j]).0,
                        commit.spec_changed()[j].1,
                    ) by {
                        if j < captures.len() {
                            assert(commit.spec_changed()[j] == captures[j]);
                        }
                    }
                }
                self.board.capture_squares(&commit);
                let ghost b1 = self.spec_board();
                proof {
                    let captures = move_captures(b0, rr, cc, p0);
                    assert forall|i: int, j: int|
                        #[trigger] b1.square_at(i, j) == if (i == rr && j == cc)
                            || captures.contains((i, j)) {
                            BoardSquare::Played(p0)
                        } else {
                            b0.square_at(i, j)
                        } by {
                        if commit.spec_changed().contains((i, j)) {
                            let k = choose|k: int|
                                0 <= k < commit.spec_changed().len()
                                    && #[trigger] commit.spec_changed()[k] == (i, j);
                            if k < captures.len() {
                                assert(captures[k] == (i, j));
                                assert(captures.contains((i, j)));
                            }
                        } else {
                            if captures.contains((i, j)) {
                                let k = choose|k: int|
                                    0 <= k < captures.len() && #[trigger] captures[k] == (i, j);
                                assert(commit.spec_changed()[k] == (i, j));
                            }
                            assert(!(i == rr && j == cc)) by {
                                assert(commit.spec_changed()[captures.len() as int] == (rr, cc));
                            }
                        }
                    }
                    assert(played_board(b0, b1, rr, cc, p0));
                }
                let mover = player;
                let opponent = self.current_opponent();
                self.current_player = opponent;
                self.check_available_positions();
                proof {
                    lemma_legal_coords_empty(b1, p0.opponent());
                }
                if self.available_positions.len() > 0 {
                    self.state = GameState::Played;
                } else {
                    self.state = GameState::PlayedAndPassed;
                    self.current_player = mover;
                    self.check_available_positions();
                    proof {
                        lemma_legal_coords_empty(b1, p0);
                    }
                    if self.available_positions.len() == 0 {
                        self.state = GameState::GameOver;
                    }
                }
                return Ok(());
            }
            idx = idx + 1;
        }
        proof {
            if is_legal_move(b0, rr, cc, p0) {
                lemma_legal_coords_upto_complete(b0, p0, (BOARD_SIZE * BOARD_SIZE) as int, rr, cc);
                let i = choose|i: int| 0 <= i < legal.len() && #[trigger] legal[i] == (rr, cc);
                assert(play_matches(self.spec_plays()[i], b0, legal[i].0, legal[i].1, p0));
                assert(self.spec_plays()[i].spec_coord() == coord);
            }
        }
        Err(PlayError)
    }

    /// A fresh copy of a coordinate list.
    fn copy_coords(src: &Vec<(usize, usize)>) -> (r: Vec<(usize, usize)>)
        ensures
            r@ == src@,
    {
        let mut out: Vec<(usize, usize)> = Vec::new();
        let n = src.len();
        let mut i: usize = 0;
        while i < n
            invariant
                i <= n,
                n == src@.len(),
                out@ == src@.take(i as int),
            decreases n - i,
        {
            out.push(src[i]);
            proof {
                assert(src@.take(i as int + 1) =~= src@.take(i as int).push(src@[i as int]));
            }
            i = i + 1;
        }
        proof {
            assert(src@.take(n as int) =~= src@);
        }
        out
    }

    /// Set up a match from an arbitrary position: the listed squares hold
    /// the listed pieces (later entries win), everything else is empty.
    /// The given player moves first; a player with no legal move yields
    /// the turn at once, and a position dead for both sides ends at once.
    pub fn from_position(placed: Vec<((usize, usize), Piece)>, player: Piece) -> (game: Game)
        requires
            forall|i: int|
                0 <= i < placed@.len() ==> in_bounds(
                    (#[trigger] placed@[i]).0.0 as int,
                    placed@[i].0.1 as int,
                ),
        ensures
            game.wf(),
            forall|r: int, c: int|
                in_bounds(r, c) ==> #[trigger] game.spec_board().square_at(r, c) == placed_square(
                    placed@,
                    r,
                    c,
                ),
            ({
                let b = game.spec_board();
                if has_legal_move(b, player) {
                    game.spec_player() == player && game.spec_state() is New
                } else if has_legal_move(b, player.opponent()) {
                    game.spec_player() == player.opponent() && game.spec_state() is New
                } else {
                    game.spec_player() == player && game.spec_state() is GameOver
                }
            }),
    {
        let mut board = Board::empty();
        let n = placed.len();
        let mut k: usize = 0;
        while k < n
            invariant
                k <= n,
                n == placed@.len(),
                board.wf(),
                forall|i: int|
                    0 <= i < placed@.len() ==> in_bounds(
                        (#[trigger] placed@[i]).0.0 as int,
                        placed@[i].0.1 as int,
                    ),
                forall|r: int, c: int|
                    in_bounds(r, c) ==> #[trigger] board.square_at(r, c) == placed_square(
                        placed@.take(k as int),
                        r,
                        c,
                    ),
            decreases n - k,
        {
            let ghost pre = board;
            let entry = placed[k];
            let mut one: Vec<(usize, usize)> = Vec::new();
            one.push(entry.0);
            let single = ValidPlay::new(1, entry.0, one, entry.1);
            proof {
                assert(single.spec_changed() =~= seq![(entry.0.0 as int, entry.0.1 as int)]);
            }
            board.capture_squares(&single);
            proof {
                let kk = k as int;
                let key = (entry.0.0 as int, entry.0.1 as int);
                assert(placed@.take(kk + 1).drop_last() =~= placed@.take(kk));
                assert(placed@.take(kk + 1).last() == placed@[kk]);
                assert forall|r: int, c: int|
                    in_bounds(r, c) implies #[trigger] board.square_at(r, c) == placed_square(
                    placed@.take(kk + 1),
                    r,
                    c,
                ) by {
                    if (r, c) == key {
                        assert(single.spec_changed()[0] == key);
                        assert(single.spec_changed().contains((r, c)));
                    } else {
                        assert(!single.spec_changed().contains((r, c))) by {
                            if single.spec_changed().contains((r, c)) {
                                let i = choose|i: int|
                                    0 <= i < single.spec_changed().len()
                                        && #[trigger] single.spec_changed()[i] == (r, c);
                            }
                        }
                        assert(board.square_at(r, c) == pre.square_at(r, c));
                    }
                }
            }
            k = k + 1;
        }
        proof {
            assert(placed@.take(n as int) =~= placed@);
        }
        let mut game = Game {
            board,
            current_player: player,
            available_positions: Vec::new(),
            state: GameState::New,
        };
        game.check_available_positions();
        proof {
            lemma_legal_coords_empty(game.spec_board(), player);
        }
        if game.available_positions.len() == 0 {
            let opponent = game.current_opponent();
            game.current_player = opponent;
            game.check_available_positions();
            proof {
                lemma_legal_coords_empty(game.spec_board(), player.opponent());
            }
            if game.available_positions.len() == 0 {
                game.current_player = player;
                game.check_available_positions();
                game.state = GameState::GameOver;
            }
        }
        game
    }
}

/// A finished game is terminal: no square is a legal move for either
/// player, so by `try_play`'s contract every further move attempt fails
/// and leaves the game exactly as it is.
pub proof fn lemma_game_over_terminal(game: Game, r: int, c: int)
    requires
        game.wf(),
        game.spec_state() is GameOver,
    ensures
        !is_legal_move(game.spec_board(), r, c, Piece::Black),
        !is_legal_move(game.spec_board(), r, c, Piece::White),
{
    if is_legal_move(game.spec_board(), r, c, Piece::Black) {
        assert(has_legal_move(game.spec_board(), Piece::Black));
    }
    if is_legal_move(game.spec_board(), r, c, Piece::White) {
        assert(has_legal_move(game.spec_board(), Piece::White));
    }
}

/// Queries are idempotent: the legal-move list is a function of the game
/// state alone, so two reads without a move in between are identical.
pub proof fn lemma_legal_moves_agree(game: Game, first: Seq<(int, int)>, second: Seq<(int, int)>)
    requires
        first == legal_coords(game.spec_board(), game.spec_player()),
        second == legal_coords(game.spec_board(), game.spec_player()),
    ensures
        first == second,
{
}

/// Rebuilding the move cache is idempotent in effect: any two caches in
/// step with the same board and player list the same targets in the same
/// order, with the same captures, piece, and score, entry by entry.
pub proof fn lemma_cache_rebuild_deterministic(first: Game, second: Game, i: int)
    requires
        first.cache_matches(),
        second.cache_matches(),
        first.spec_board() == second.spec_board(),
        first.spec_player() == second.spec_player(),
    ensures
        first.spec_plays().len() == second.spec_plays().len(),
        0 <= i < first.spec_plays().len() ==> {
            &&& first.spec_plays()[i].spec_coord() == second.spec_plays()[i].spec_coord()
            &&& first.spec_plays()[i].spec_changed() == second.spec_plays()[i].spec_changed()
            &&& first.spec_plays()[i].spec_player() == second.spec_plays()[i].spec_player()
            &&& first.spec_plays()[i].spec_score() == second.spec_plays()[i].spec_score()
        },
{
    if 0 <= i < first.spec_plays().len() {
        let b = first.spec_board();
        let p = first.spec_player();
        let target = legal_coords(b, p)[i];
        assert(play_matches(first.spec_plays()[i], b, target.0, target.1, p));
        assert(play_matches(second.spec_plays()[i], b, target.0, target.1, p));
    }
}

} // verus!
