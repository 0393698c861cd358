use vstd::prelude::*;
use crate::position::Position;
use crate::types::{Color, Piece, PieceKind, Square, lemma_piece_from_parts};

verus! {

pub type Score = i32;

/// Piece-square bonus for a pawn, by square as seen from white's side.
pub open spec fn pawn_table() -> Seq<i32> {
    seq![
        0i32, 0i32, 0i32, 0i32, 0i32, 0i32, 0i32, 0i32,
        2i32, 4i32, 6i32, 8i32, 8i32, 6i32, 4i32, 2i32,
        4i32, 6i32, 10i32, 14i32, 14i32, 10i32, 6i32, 4i32,
        6i32, 8i32, 14i32, 20i32, 20i32, 14i32, 8i32, 6i32,
        8i32, 10i32, 18i32, 26i32, 26i32, 18i32, 10i32, 8i32,
        12i32, 14i32, 22i32, 30i32, 30i32, 22i32, 14i32, 12i32,
        18i32, 20i32, 28i32, 36i32, 36i32, 28i32, 20i32, 18i32,
        0i32, 0i32, 0i32, 0i32, 0i32, 0i32, 0i32, 0i32,
    ]
}

/// Piece-square bonus for a knight, by square as seen from white's side.
pub open spec fn knight_table() -> Seq<i32> {
    seq![
        -20i32, -12i32, -8i32, -6i32, -6i32, -8i32, -12i32, -20i32,
        -12i32, -4i32, 2i32, 4i32, 4i32, 2i32, -4i32, -12i32,
        -8i32, 2i32, 8i32, 12i32, 12i32, 8i32, 2i32, -8i32,
        -6i32, 4i32, 12i32, 18i32, 18i32, 12i32, 4i32, -6i32,
        -6i32, 4i32, 12i32, 18i32, 18i32, 12i32, 4i32, -6i32,
        -8i32, 2i32, 8i32, 12i32, 12i32, 8i32, 2i32, -8i32,
        -12i32, -4i32, 2i32, 4i32, 4i32, 2i32, -4i32, -12i32,
        -20i32, -12i32, -8i32, -6i32, -6i32, -8i32, -12i32, -20i32,
    ]
}

/// Piece-square bonus for a bishop, by square as seen from white's side.
pub open spec fn bishop_table() -> Seq<i32> {
    seq![
        -10i32, -6i32, -4i32, -2i32, -2i32, -4i32, -6i32, -10i32,
        -6i32, 2i32, 4i32, 6i32, 6i32, 4i32, 2i32, -6i32,
        -4i32, 4i32, 8i32, 10i32, 10i32, 8i32, 4i32, -4i32,
        -2i32, 6i32, 10i32, 14i32, 14i32, 10i32, 6i32, -2i32,
        -2i32, 6i32, 10i32, 14i32, 14i32, 10i32, 6i32, -2i32,
        -4i32, 4i32, 8i32, 10i32, 10i32, 8i32, 4i32, -4i32,
        -6i32, 2i32, 4i32, 6i32, 6i32, 4i32, 2i32, -6i32,
        -10i32, -6i32, -4i32, -2i32, -2i32, -4i32, -6i32, -10i32,
    ]
}

/// Piece-square bonus for a rook, by square as seen from white's side.
pub open spec fn rook_table() -> Seq<i32> {
    seq![
        0i32, 0i32, 2i32, 4i32, 4i32, 2i32, 0i32, 0i32,
        2i32, 2i32, 4i32, 6i32, 6i32, 4i32, 2i32, 2i32,
        4i32, 4i32, 6i32, 8i32, 8i32, 6i32, 4i32, 4i32,
        6i32, 6i32, 8i32, 10i32, 10i32, 8i32, 6i32, 6i32,
        8i32, 8i32, 10i32, 12i32, 12i32, 10i32, 8i32, 8i32,
        10i32, 10i32, 12i32, 14i32, 14i32, 12i32, 10i32, 10i32,
        12i32, 12i32, 14i32, 16i32, 16i32, 14i32, 12i32, 12i32,
        14i32, 14i32, 16i32, 18i32, 18i32, 16i32, 14i32, 14i32,
    ]
}

/// Piece-square bonus for a queen, by square as seen from white's side.
pub open spec fn queen_table() -> Seq<i32> {
    seq![
        -8i32, -4i32, -2i32, 0i32, 0i32, -2i32, -4i32, -8i32,
        -4i32, 2i32, 4i32, 6i32, 6i32, 4i32, 2i32, -4i32,
        -2i32, 4i32, 8i32, 10i32, 10i32, 8i32, 4i32, -2i32,
        0i32, 6i32, 10i32, 14i32, 14i32, 10i32, 6i32, 0i32,
        0i32, 6i32, 10i32, 14i32, 14i32, 10i32, 6i32, 0i32,
        -2i32, 4i32, 8i32, 10i32, 10i32, 8i32, 4i32, -2i32,
        -4i32, 2i32, 4i32, 6i32, 6i32, 4i32, 2i32, -4i32,
        -8i32, -4i32, -2i32, 0i32, 0i32, -2i32, -4i32, -8i32,
    ]
}

/// Material value of a kind of piece.
pub open spec fn material_spec(kind: PieceKind) -> i32 {
    match kind {
        PieceKind::Pawn => 100,
        PieceKind::Knight => 320,
        PieceKind::Bishop => 330,
        PieceKind::Rook => 500,
        PieceKind::Queen => 900,
        PieceKind::King => 0,
    }
}

/// The piece-square bonus of a kind on a table index.
pub open spec fn pst_spec(kind: PieceKind, idx: int) -> i32 {
    match kind {
        PieceKind::Pawn => pawn_table()[idx],
        PieceKind::Knight => knight_table()[idx],
        PieceKind::Bishop => bishop_table()[idx],
        PieceKind::Rook => rook_table()[idx],
        PieceKind::Queen => queen_table()[idx],
        PieceKind::King => 0,
    }
}

/// The square seen from the other side of the board.
pub open spec fn mirror_index(s: int) -> int {
    (7 - s / 8) * 8 + s % 8
}

/// What a piece on a square is worth to its owner: material plus the table
/// bonus, tables read from the owner's side.
pub open spec fn piece_score(p: Piece, s: int) -> int {
    let idx = if p.color() == Color::White {
        s
    } else {
        mirror_index(s)
    };
    material_spec(p.kind()) + pst_spec(p.kind(), idx)
}

/// White's score minus black's over the first `n` squares.
pub open spec fn board_score(board: Seq<Option<Piece>>, n: nat) -> int
    decreases n,
{
    if n == 0 {
        0
    } else {
        board_score(board, (n - 1) as nat) + match board[n - 1] {
            Some(p) => if p.color() == Color::White {
                piece_score(p, n - 1)
            } else {
                -piece_score(p, n - 1)
            },
            None => 0,
        }
    }
}

/// The static evaluation from the side to move's point of view.
pub open spec fn eval_spec(board: Seq<Option<Piece>>, side: Color) -> int {
    if side == Color::White {
        board_score(board, 64)
    } else {
        -board_score(board, 64)
    }
}

fn pawn_bonus(idx: usize) -> (r: i32)
    requires
        idx < 64,
    ensures
        r == pawn_table()[idx as int],
{
    let table: [i32; 64] = [
        0, 0, 0, 0, 0, 0, 0, 0,
        2, 4, 6, 8, 8, 6, 4, 2,
        4, 6, 10, 14, 14, 10, 6, 4,
        6, 8, 14, 20, 20, 14, 8, 6,
        8, 10, 18, 26, 26, 18, 10, 8,
        12, 14, 22, 30, 30, 22, 14, 12,
        18, 20, 28, 36, 36, 28, 20, 18,
        0, 0, 0, 0, 0, 0, 0, 0,
    ];
    assert(table@ =~= pawn_table());
    table[idx]
}

fn knight_bonus(idx: usize) -> (r: i32)
    requires
        idx < 64,
    ensures
        r == knight_table()[idx as int],
{
    let table: [i32; 64] = [
        -20, -12, -8, -6, -6, -8, -12, -20,
        -12, -4, 2, 4, 4, 2, -4, -12,
        -8, 2, 8, 12, 12, 8, 2, -8,
        -6, 4, 12, 18, 18, 12, 4, -6,
        -6, 4, 12, 18, 18, 12, 4, -6,
        -8, 2, 8, 12, 12, 8, 2, -8,
        -12, -4, 2, 4, 4, 2, -4, -12,
        -20, -12, -8, -6, -6, -8, -12, -20,
    ];
    assert(table@ =~= knight_table());
    table[idx]
}

fn bishop_bonus(idx: usize) -> (r: i32)
    requires
        idx < 64,
    ensures
        r == bishop_table()[idx as int],
{
    let table: [i32; 64] = [
        -10, -6, -4, -2, -2, -4, -6, -10,
        -6, 2, 4, 6, 6, 4, 2, -6,
        -4, 4, 8, 10, 10, 8, 4, -4,
        -2, 6, 10, 14, 14, 10, 6, -2,
        -2, 6, 10, 14, 14, 10, 6, -2,
        -4, 4, 8, 10, 10, 8, 4, -4,
        -6, 2, 4, 6, 6, 4, 2, -6,
        -10, -6, -4, -2, -2, -4, -6, -10,
    ];
    assert(table@ =~= bishop_table());
    table[idx]
}

fn rook_bonus(idx: usize) -> (r: i32)
    requires
        idx < 64,
    ensures
        r == rook_table()[idx as int],
{
    let table: [i32; 64] = [
        0, 0, 2, 4, 4, 2, 0, 0,
        2, 2, 4, 6, 6, 4, 2, 2,
        4, 4, 6, 8, 8, 6, 4, 4,
        6, 6, 8, 10, 10, 8, 6, 6,
        8, 8, 10, 12, 12, 10, 8, 8,
        10, 10, 12, 14, 14, 12, 10, 10,
        12, 12, 14, 16, 16, 14, 12, 12,
        14, 14, 16, 18, 18, 16, 14, 14,
    ];
    assert(table@ =~= rook_table());
    table[idx]
}

fn queen_bonus(idx: usize) -> (r: i32)
    requires
        idx < 64,
    ensures
        r == queen_table()[idx as int],
{
    let table: [i32; 64] = [
        -8, -4, -2, 0, 0, -2, -4, -8,
        -4, 2, 4, 6, 6, 4, 2, -4,
        -2, 4, 8, 10, 10, 8, 4, -2,
        0, 6, 10, 14, 14, 10, 6, 0,
        0, 6, 10, 14, 14, 10, 6, 0,
        -2, 4, 8, 10, 10, 8, 4, -2,
        -4, 2, 4, 6, 6, 4, 2, -4,
        -8, -4, -2, 0, 0, -2, -4, -8,
    ];
    assert(table@ =~= queen_table());
    table[idx]
}

proof fn lemma_tables_bounded(idx: int)
    requires
        0 <= idx < 64,
    ensures
        forall|k: PieceKind| -20 <= #[trigger] pst_spec(k, idx) <= 36,
{
    assert(-20 <= pawn_table()[idx] <= 36);
    assert(-20 <= knight_table()[idx] <= 36);
    assert(-20 <= bishop_table()[idx] <= 36);
    assert(-20 <= rook_table()[idx] <= 36);
    assert(-20 <= queen_table()[idx] <= 36);
}

proof fn lemma_board_score_bounded(board: Seq<Option<Piece>>, n: nat)
    requires
        n <= 64,
        n <= board.len(),
    ensures
        -936 * n <= board_score(board, n) <= 936 * n,
    decreases n,
{
    if n > 0 {
        lemma_board_score_bounded(board, (n - 1) as nat);
        match board[n - 1] {
            Some(p) => {
                let s = n - 1;
                let idx = if p.color() == Color::White {
                    s
                } else {
                    mirror_index(s)
                };
                lemma_tables_bounded(idx);
                assert(-20 <= pst_spec(p.kind(), idx) <= 36);
            },
            None => {},
        }
    }
}

/// Every static evaluation lies within 64 times the largest piece value.
pub proof fn lemma_eval_bounded(board: Seq<Option<Piece>>, side: Color)
    requires
        board.len() == 64,
    ensures
        -59904 <= eval_spec(board, side) <= 59904,
{
    lemma_board_score_bounded(board, 64);
}

/// The evaluation of a board with black to move is the negation of the
/// evaluation with white to move.
pub proof fn lemma_eval_side_symmetry(board: Seq<Option<Piece>>)
    ensures
        eval_spec(board, Color::Black) == -eval_spec(board, Color::White),
{
}

/// The board turned upside down with the colors of all pieces swapped.
pub open spec fn mirror_board(board: Seq<Option<Piece>>) -> Seq<Option<Piece>> {
    Seq::new(
        64,
        |s: int|
            match board[mirror_index(s)] {
                Some(p) => Some(Piece::from(p.color().opposit(), p.kind())),
                None => None,
            },
    )
}

/// What one square adds to white's score minus black's.
pub open spec fn square_term(board: Seq<Option<Piece>>, s: int) -> int {
    match board[s] {
        Some(p) => if p.color() == Color::White {
            piece_score(p, s)
        } else {
            -piece_score(p, s)
        },
        None => 0,
    }
}

/// What the squares of rank `r` add to white's score minus black's.
#[verifier::opaque]
pub open spec fn rank_score(board: Seq<Option<Piece>>, r: int) -> int {
    square_term(board, 8 * r) + square_term(board, 8 * r + 1) + square_term(board, 8 * r + 2)
        + square_term(board, 8 * r + 3) + square_term(board, 8 * r + 4) + square_term(board, 8 * r + 5)
        + square_term(board, 8 * r + 6) + square_term(board, 8 * r + 7)
}

proof fn lemma_board_score_rank(board: Seq<Option<Piece>>, r: nat)
    ensures
        board_score(board, 8 * r + 8) == board_score(board, 8 * r) + rank_score(board, r as int),
{
    reveal(rank_score);
    let b: int = 8 * r as int;
    assert forall|k: int| 0 <= k < 8 implies #[trigger] board_score(board, (b + k + 1) as nat) == board_score(board, (b + k) as nat)
        + square_term(board, b + k) by {
        assert(((b + k + 1) as nat - 1) as nat == (b + k) as nat);
    }
    assert(board_score(board, (b + 1) as nat) == board_score(board, (b + 0) as nat) + square_term(board, b + 0));
    assert(board_score(board, (b + 2) as nat) == board_score(board, (b + 1) as nat) + square_term(board, b + 1));
    assert(board_score(board, (b + 3) as nat) == board_score(board, (b + 2) as nat) + square_term(board, b + 2));
    assert(board_score(board, (b + 4) as nat) == board_score(board, (b + 3) as nat) + square_term(board, b + 3));
    assert(board_score(board, (b + 5) as nat) == board_score(board, (b + 4) as nat) + square_term(board, b + 4));
    assert(board_score(board, (b + 6) as nat) == board_score(board, (b + 5) as nat) + square_term(board, b + 5));
    assert(board_score(board, (b + 7) as nat) == board_score(board, (b + 6) as nat) + square_term(board, b + 6));
    assert(board_score(board, (b + 8) as nat) == board_score(board, (b + 7) as nat) + square_term(board, b + 7));
}

proof fn lemma_board_score_ranks(board: Seq<Option<Piece>>)
    ensures
        board_score(board, 64) == rank_score(board, 0) + rank_score(board, 1) + rank_score(board, 2)
            + rank_score(board, 3) + rank_score(board, 4) + rank_score(board, 5) + rank_score(board, 6)
            + rank_score(board, 7),
{
    lemma_board_score_rank(board, 0);
    lemma_board_score_rank(board, 1);
    lemma_board_score_rank(board, 2);
    lemma_board_score_rank(board, 3);
    lemma_board_score_rank(board, 4);
    lemma_board_score_rank(board, 5);
    lemma_board_score_rank(board, 6);
    lemma_board_score_rank(board, 7);
}

proof fn lemma_mirror_term(board: Seq<Option<Piece>>, r: int, f: int)
    requires
        0 <= r < 8,
        0 <= f < 8,
    ensures
        square_term(mirror_board(board), 8 * r + f) == -square_term(board, 8 * (7 - r) + f),
{
    let s = 8 * r + f;
    let t = 8 * (7 - r) + f;
    assert(s / 8 == r && s % 8 == f) by (nonlinear_arith)
        requires
            s == 8 * r + f,
            0 <= f < 8,
    ;
    assert(t / 8 == 7 - r && t % 8 == f) by (nonlinear_arith)
        requires
            t == 8 * (7 - r) + f,
            0 <= f < 8,
    ;
    assert(mirror_index(s) == t);
    assert(mirror_index(t) == s);
    match board[t] {
        Some(p) => {
            lemma_piece_from_parts(p.color().opposit(), p.kind(), p);
        },
        None => {},
    }
}

proof fn lemma_mirror_rank(board: Seq<Option<Piece>>, r: int)
    requires
        0 <= r < 8,
    ensures
        rank_score(mirror_board(board), r) == -rank_score(board, 7 - r),
{
    reveal(rank_score);
    lemma_mirror_term(board, r, 0);
    lemma_mirror_term(board, r, 1);
    lemma_mirror_term(board, r, 2);
    lemma_mirror_term(board, r, 3);
    lemma_mirror_term(board, r, 4);
    lemma_mirror_term(board, r, 5);
    lemma_mirror_term(board, r, 6);
    lemma_mirror_term(board, r, 7);
}

/// Turning the board upside down and swapping the colors of all pieces
/// negates the evaluation, whichever side is to move.
pub proof fn lemma_eval_mirror(board: Seq<Option<Piece>>, side: Color)
    ensures
        eval_spec(mirror_board(board), side) == -eval_spec(board, side),
{
    let m = mirror_board(board);
    lemma_board_score_ranks(board);
    lemma_board_score_ranks(m);
    lemma_mirror_rank(board, 0);
    lemma_mirror_rank(board, 1);
    lemma_mirror_rank(board, 2);
    lemma_mirror_rank(board, 3);
    lemma_mirror_rank(board, 4);
    lemma_mirror_rank(board, 5);
    lemma_mirror_rank(board, 6);
    lemma_mirror_rank(board, 7);
}

/// The material value of a piece kind in centipawns; the king counts nothing.
pub fn material_value(kind: PieceKind) -> (r: Score)
    ensures
        r == material_spec(kind),
{
    match kind {
        PieceKind::Pawn => 100,
        PieceKind::Knight => 320,
        PieceKind::Bishop => 330,
        PieceKind::Rook => 500,
        PieceKind::Queen => 900,
        PieceKind::King => 0,
    }
}

fn mirror_square(square: Square) -> (r: Square)
    requires
        square.0 < 64,
    ensures
        r.0 == mirror_index(square.0 as int),
        r.0 < 64,
{
    Square::from_file_rank(square.file(), 7 - square.rank())
}

fn pst_value(kind: PieceKind, square: Square, color: Color) -> (r: Score)
    requires
        square.0 < 64,
    ensures
        r == pst_spec(kind, if color == Color::White {
            square.0 as int
        } else {
            mirror_index(square.0 as int)
        }),
{
    let idx = match color {
        Color::White => square.idx(),
        Color::Black => mirror_square(square).idx(),
    };
    match kind {
        PieceKind::Pawn => pawn_bonus(idx),
        PieceKind::Knight => knight_bonus(idx),
        PieceKind::Bishop => bishop_bonus(idx),
        PieceKind::Rook => rook_bonus(idx),
        PieceKind::Queen => queen_bonus(idx),
        PieceKind::King => 0,
    }
}

/// Material plus piece-square tables, from the side to move's point of view.
pub fn evaluate(pos: &Position) -> (r: Score)
    ensures
        r == eval_spec(pos.board@, pos.side_to_move),
        -59904 <= r <= 59904,
{
    let mut white_minus_black: i32 = 0;
    let mut square_idx: usize = 0;
    while square_idx < 64
        invariant
            square_idx <= 64,
            white_minus_black == board_score(pos.board@, square_idx as nat),
            -936 * square_idx <= white_minus_black <= 936 * square_idx,
        decreases 64 - square_idx,
    {
        proof {
            lemma_board_score_bounded(pos.board@, (square_idx + 1) as nat);
        }
        match pos.board[square_idx] {
            Some(piece) => {
                let square = Square(square_idx as u8);
                let piece_score = material_value(piece.kind()) + pst_value(piece.kind(), square, piece.color());
                match piece.color() {
                    Color::White => white_minus_black = white_minus_black + piece_score,
                    Color::Black => white_minus_black = white_minus_black - piece_score,
                }
            },
            None => {},
        }
        square_idx = square_idx + 1;
    }
    proof {
        lemma_eval_bounded(pos.board@, pos.side_to_move);
    }
    match pos.side_to_move {
        Color::White => white_minus_black,
        Color::Black => -white_minus_black,
    }
}

/// The material values: a pawn 100, a knight 320, a bishop 330, a rook
/// 500, a queen 900, and the king nothing.
pub proof fn lemma_material_values()
    ensures
        material_spec(PieceKind::Pawn) == 100,
        material_spec(PieceKind::Knight) == 320,
        material_spec(PieceKind::Bishop) == 330,
        material_spec(PieceKind::Rook) == 500,
        material_spec(PieceKind::Queen) == 900,
        material_spec(PieceKind::King) == 0,
{
}

/// What a piece of a kind is worth in material, in centipawns.
pub open spec fn centipawns(kind: PieceKind) -> int {
    match kind {
        PieceKind::Pawn => 100,
        PieceKind::Knight => 320,
        PieceKind::Bishop => 330,
        PieceKind::Rook => 500,
        PieceKind::Queen => 900,
        PieceKind::King => 0,
    }
}

proof fn lemma_board_score_update(board: Seq<Option<Piece>>, s: int, v: Option<Piece>, n: nat)
    requires
        0 <= s < board.len(),
        n <= board.len(),
    ensures
        board_score(board.update(s, v), n) == board_score(board, n) + if s < n {
            square_term(board.update(s, v), s) - square_term(board, s)
        } else {
            0
        },
    decreases n,
{
    if n > 0 {
        lemma_board_score_update(board, s, v, (n - 1) as nat);
    }
}

/// Putting a piece on an empty square changes White's evaluation by what
/// the piece is worth to its owner, added for a white piece and taken off
/// for a black one: its material value in centipawns plus its table bonus
/// on that square, read from its owner's side.
pub proof fn lemma_eval_add_piece(board: Seq<Option<Piece>>, s: int, p: Piece)
    requires
        board.len() == 64,
        0 <= s < 64,
        board[s] is None,
    ensures
        eval_spec(board.update(s, Some(p)), Color::White) == eval_spec(board, Color::White) + (if p.color()
            == Color::White {
            centipawns(p.kind()) + pst_spec(p.kind(), s)
        } else {
            -(centipawns(p.kind()) + pst_spec(p.kind(), mirror_index(s)))
        }),
{
    lemma_board_score_update(board, s, Some(p), 64);
    assert(board.update(s, Some(p))[s] == Some(p));
}

} // verus!
