use vstd::prelude::*;
use crate::mv::{Move, promotion_code};
use crate::position::{
    CastlingRights, Position, State, capture_square_of, made, move_fits, mover,
    lemma_made_can_unmake, lemma_unmake_restores, board_after, next_ep_of, king_sq_after,
    after_move, lemma_after_move,
};
use crate::types::{Color, Piece, PieceKind, Square};

verus! {

/// Squares on the board, by file and rank.
pub open spec fn on_board(f: int, r: int) -> bool {
    0 <= f < 8 && 0 <= r < 8
}

/// The square a file and rank step away from `sq`, if it is on the board.
pub open spec fn offset_spec(sq: Square, df: int, dr: int) -> Option<Square> {
    let f = sq.0 % 8 + df;
    let r = sq.0 / 8 + dr;
    if on_board(f, r) {
        Some(Square((r * 8 + f) as u8))
    } else {
        None
    }
}

/// The square a file and rank step away from `square`, if it is on the board.
pub fn offset_square(square: Square, file_delta: i8, rank_delta: i8) -> (r: Option<Square>)
    requires
        -8 <= file_delta <= 8,
        -8 <= rank_delta <= 8,
    ensures
        r == offset_spec(square, file_delta as int, rank_delta as int),
        r matches Some(s) ==> s.0 < 64,
{
    let file = square.file() as i8 + file_delta;
    let rank = square.rank() as i8 + rank_delta;
    if 0 <= file && file < 8 && 0 <= rank && rank < 8 {
        Some(Square::from_file_rank(file as u8, rank as u8))
    } else {
        None
    }
}

/// The eight knight jumps (for `Knight`) or the eight king steps (otherwise).
pub open spec fn leaper_delta(kind: PieceKind, i: int) -> (int, int) {
    if kind == PieceKind::Knight {
        if i == 0 {
            (1, 2)
        } else if i == 1 {
            (2, 1)
        } else if i == 2 {
            (2, -1)
        } else if i == 3 {
            (1, -2)
        } else if i == 4 {
            (-1, -2)
        } else if i == 5 {
            (-2, -1)
        } else if i == 6 {
            (-2, 1)
        } else {
            (-1, 2)
        }
    } else {
        if i == 0 {
            (1, 1)
        } else if i == 1 {
            (1, 0)
        } else if i == 2 {
            (1, -1)
        } else if i == 3 {
            (0, -1)
        } else if i == 4 {
            (-1, -1)
        } else if i == 5 {
            (-1, 0)
        } else if i == 6 {
            (-1, 1)
        } else {
            (0, 1)
        }
    }
}

fn leaper_offset(kind: PieceKind, i: usize) -> (r: (i8, i8))
    requires
        i < 8,
    ensures
        (r.0 as int, r.1 as int) == leaper_delta(kind, i as int),
{
    if kind == PieceKind::Knight {
        match i {
            0 => (1, 2),
            1 => (2, 1),
            2 => (2, -1),
            3 => (1, -2),
            4 => (-1, -2),
            5 => (-2, -1),
            6 => (-2, 1),
            _ => (-1, 2),
        }
    } else {
        match i {
            0 => (1, 1),
            1 => (1, 0),
            2 => (1, -1),
            3 => (0, -1),
            4 => (-1, -1),
            5 => (-1, 0),
            6 => (-1, 1),
            _ => (0, 1),
        }
    }
}

/// The four diagonal directions (for `bishop`) or the four straight ones.
pub open spec fn slider_dir(bishop: bool, j: int) -> (int, int) {
    if bishop {
        if j == 0 {
            (1, 1)
        } else if j == 1 {
            (1, -1)
        } else if j == 2 {
            (-1, -1)
        } else {
            (-1, 1)
        }
    } else {
        if j == 0 {
            (1, 0)
        } else if j == 1 {
            (0, -1)
        } else if j == 2 {
            (-1, 0)
        } else {
            (0, 1)
        }
    }
}

fn slider_direction(bishop: bool, j: usize) -> (r: (i8, i8))
    requires
        j < 4,
    ensures
        (r.0 as int, r.1 as int) == slider_dir(bishop, j as int),
{
    if bishop {
        match j {
            0 => (1, 1),
            1 => (1, -1),
            2 => (-1, -1),
            _ => (-1, 1),
        }
    } else {
        match j {
            0 => (1, 0),
            1 => (0, -1),
            2 => (-1, 0),
            _ => (0, 1),
        }
    }
}

/// The first piece met walking from `sq` in a direction, looking at most `steps` squares.
pub open spec fn ray_first(board: Seq<Option<Piece>>, sq: Square, df: int, dr: int, steps: nat) -> Option<Piece>
    decreases steps,
{
    if steps == 0 {
        None
    } else {
        match offset_spec(sq, df, dr) {
            None => None,
            Some(n) => match board[n.0 as int] {
                Some(p) => Some(p),
                None => ray_first(board, n, df, dr, (steps - 1) as nat),
            },
        }
    }
}

/// A pawn of `by` attacks `sq` from the given file side.
pub open spec fn pawn_hit(board: Seq<Option<Piece>>, sq: Square, by: Color, df: int) -> bool {
    let dr = if by == Color::White {
        -1int
    } else {
        1int
    };
    offset_spec(sq, df, dr) matches Some(a) && board[a.0 as int] == Some(Piece::from(by, PieceKind::Pawn))
}

/// A knight or king of `by` attacks `sq` along the `i`-th jump or step.
pub open spec fn leaper_hit(board: Seq<Option<Piece>>, sq: Square, by: Color, kind: PieceKind, i: int) -> bool {
    let d = leaper_delta(kind, i);
    offset_spec(sq, d.0, d.1) matches Some(a) && board[a.0 as int] == Some(Piece::from(by, kind))
}

/// A slider of `by` attacks `sq` along the `j`-th direction: the first piece
/// on that ray is a bishop (diagonals) or rook (straight lines) or queen of `by`.
pub open spec fn slider_hit(board: Seq<Option<Piece>>, sq: Square, by: Color, bishop: bool, j: int) -> bool {
    let d = slider_dir(bishop, j);
    let primary = if bishop {
        PieceKind::Bishop
    } else {
        PieceKind::Rook
    };
    ray_first(board, sq, d.0, d.1, 8) matches Some(p) && p.color() == by && (p.kind() == primary
        || p.kind() == PieceKind::Queen)
}

/// Whether any piece of `by` attacks `sq`.
pub open spec fn attacked(board: Seq<Option<Piece>>, sq: Square, by: Color) -> bool {
    ||| pawn_hit(board, sq, by, -1)
    ||| pawn_hit(board, sq, by, 1)
    ||| exists|i: int| 0 <= i < 8 && #[trigger] leaper_hit(board, sq, by, PieceKind::Knight, i)
    ||| exists|i: int| 0 <= i < 8 && #[trigger] leaper_hit(board, sq, by, PieceKind::King, i)
    ||| exists|j: int| 0 <= j < 4 && #[trigger] slider_hit(board, sq, by, true, j)
    ||| exists|j: int| 0 <= j < 4 && #[trigger] slider_hit(board, sq, by, false, j)
}

#[verifier::spinoff_prover]
fn is_attacked_by_pawn(pos: &Position, square: Square, by: Color) -> (r: bool)
    ensures
        r == (pawn_hit(pos.board@, square, by, -1) || pawn_hit(pos.board@, square, by, 1)),
{
    let attacker_rank_delta: i8 = match by {
        Color::White => -1,
        Color::Black => 1,
    };
    let pawn = Piece::from(by, PieceKind::Pawn);
    match offset_square(square, -1, attacker_rank_delta) {
        Some(from) => {
            if pos.piece_at(from) == Some(pawn) {
                return true;
            }
        },
        None => {},
    }
    match offset_square(square, 1, attacker_rank_delta) {
        Some(from) => {
            if pos.piece_at(from) == Some(pawn) {
                return true;
            }
        },
        None => {},
    }
    false
}

#[verifier::spinoff_prover]
fn is_attacked_by_leaper(pos: &Position, square: Square, by: Color, kind: PieceKind) -> (r: bool)
    ensures
        r == exists|i: int| 0 <= i < 8 && #[trigger] leaper_hit(pos.board@, square, by, kind, i),
{
    let attacker = Piece::from(by, kind);
    let mut i: usize = 0;
    while i < 8
        invariant
            i <= 8,
            attacker == Piece::from(by, kind),
            forall|j: int| 0 <= j < i ==> !#[trigger] leaper_hit(pos.board@, square, by, kind, j),
        decreases 8 - i,
    {
        let (df, dr) = leaper_offset(kind, i);
        match offset_square(square, df, dr) {
            Some(from) => {
                if pos.piece_at(from) == Some(attacker) {
                    assert(leaper_hit(pos.board@, square, by, kind, i as int));
                    return true;
                }
            },
            None => {},
        }
        i = i + 1;
    }
    false
}

#[verifier::spinoff_prover]
fn is_attacked_by_slider(pos: &Position, square: Square, by: Color, bishop: bool) -> (r: bool)
    ensures
        r == exists|j: int| 0 <= j < 4 && #[trigger] slider_hit(pos.board@, square, by, bishop, j),
{
    let primary = if bishop {
        PieceKind::Bishop
    } else {
        PieceKind::Rook
    };
    let mut j: usize = 0;
    while j < 4
        invariant
            j <= 4,
            primary == (if bishop {
                PieceKind::Bishop
            } else {
                PieceKind::Rook
            }),
            forall|k: int| 0 <= k < j ==> !#[trigger] slider_hit(pos.board@, square, by, bishop, k),
        decreases 4 - j,
    {
        let (df, dr) = slider_direction(bishop, j);
        let ghost d = slider_dir(bishop, j as int);
        let mut current = square;
        let mut steps: u8 = 8;
        let mut found: Option<Piece> = None;
        while steps > 0
            invariant_except_break
                found is None,
                ray_first(pos.board@, square, d.0, d.1, 8) == ray_first(pos.board@, current, d.0, d.1, steps as nat),
            invariant
                steps <= 8,
                (df as int, dr as int) == d,
                -1 <= df <= 1,
                -1 <= dr <= 1,
            ensures
                ray_first(pos.board@, square, d.0, d.1, 8) == found,
            decreases steps,
        {
            match offset_square(current, df, dr) {
                None => {
                    break;
                },
                Some(next) => {
                    current = next;
                    steps = steps - 1;
                    match pos.piece_at(current) {
                        Some(piece) => {
                            found = Some(piece);
                            break;
                        },
                        None => {},
                    }
                },
            }
        }
        match found {
            Some(piece) => {
                if piece.color() == by && (piece.kind() == primary || piece.kind() == PieceKind::Queen) {
                    assert(slider_hit(pos.board@, square, by, bishop, j as int));
                    return true;
                }
            },
            None => {},
        }
        j = j + 1;
    }
    false
}

/// A plain move, as `Move::new` packs it.
pub open spec fn quiet_mv(from: Square, to: Square) -> Move {
    Move((from.0 as u32) | ((to.0 as u32) << 6u32))
}

/// A promotion move, as `Move::with_promotion` packs it.
pub open spec fn promo_mv(from: Square, to: Square, k: PieceKind) -> Move {
    Move(quiet_mv(from, to).0 | (promotion_code(k) << 12u32))
}

/// The move with its capture flag set.
pub open spec fn cap_mv(m: Move) -> Move {
    Move(m.0 | 0x8000u32)
}

/// The move with its double pawn push flag set.
pub open spec fn dpp_mv(m: Move) -> Move {
    Move(m.0 | 0x10000u32)
}

/// The move with its en passant and capture flags set.
pub open spec fn ep_mv(m: Move) -> Move {
    Move(m.0 | 0x20000u32 | 0x8000u32)
}

/// The move with its castling flag set.
pub open spec fn castle_mv(m: Move) -> Move {
    Move(m.0 | 0x40000u32)
}

pub open spec fn pawn_dir(c: Color) -> int {
    if c == Color::White {
        1
    } else {
        -1
    }
}

pub open spec fn pawn_start(c: Color) -> int {
    if c == Color::White {
        1
    } else {
        6
    }
}

pub open spec fn pawn_promo_rank(c: Color) -> int {
    if c == Color::White {
        7
    } else {
        0
    }
}

pub open spec fn promo_one(from: Square, to: Square, k: PieceKind, capture: bool) -> Move {
    if capture {
        cap_mv(promo_mv(from, to, k))
    } else {
        promo_mv(from, to, k)
    }
}

/// The four promotions of a pawn move: knight, bishop, rook, queen.
pub open spec fn promotions(from: Square, to: Square, capture: bool) -> Seq<Move> {
    seq![
        promo_one(from, to, PieceKind::Knight, capture),
        promo_one(from, to, PieceKind::Bishop, capture),
        promo_one(from, to, PieceKind::Rook, capture),
        promo_one(from, to, PieceKind::Queen, capture),
    ]
}

/// The forward moves of a pawn: one step to an empty square (as four
/// promotions on the last rank), then two steps from the start rank.
pub open spec fn pawn_push_moves(pos: Position, from: Square, color: Color) -> Seq<Move> {
    let dir = pawn_dir(color);
    match offset_spec(from, 0, dir) {
        None => seq![],
        Some(one) => if pos.board[one.0 as int] is Some {
            seq![]
        } else {
            let first = if one.0 / 8 == pawn_promo_rank(color) {
                promotions(from, one, false)
            } else {
                seq![quiet_mv(from, one)]
            };
            let second = if from.0 / 8 == pawn_start(color) {
                match offset_spec(one, 0, dir) {
                    Some(two) => if pos.board[two.0 as int] is None {
                        seq![dpp_mv(quiet_mv(from, two))]
                    } else {
                        seq![]
                    },
                    None => seq![],
                }
            } else {
                seq![]
            };
            first + second
        },
    }
}

/// The diagonal moves of a pawn toward one side: a capture of an enemy piece
/// (as four promotions on the last rank), or else en passant.
pub open spec fn pawn_capture_moves(pos: Position, from: Square, color: Color, df: int) -> Seq<Move> {
    match offset_spec(from, df, pawn_dir(color)) {
        None => seq![],
        Some(to) => if pos.board[to.0 as int] is Some && pos.board[to.0 as int].unwrap().color()
            == color.opposit() {
            if to.0 / 8 == pawn_promo_rank(color) {
                promotions(from, to, true)
            } else {
                seq![cap_mv(quiet_mv(from, to))]
            }
        } else if pos.ep_square == Some(to) {
            seq![ep_mv(quiet_mv(from, to))]
        } else {
            seq![]
        },
    }
}

/// All moves of a pawn, in generation order.
pub open spec fn pawn_moves(pos: Position, from: Square, color: Color) -> Seq<Move> {
    pawn_push_moves(pos, from, color) + pawn_capture_moves(pos, from, color, -1) + pawn_capture_moves(
        pos,
        from,
        color,
        1,
    )
}

/// The move of a piece to a square: none onto its own side, a capture onto
/// the other side, a plain move onto an empty square.
pub open spec fn dest_moves(pos: Position, color: Color, from: Square, to: Square) -> Seq<Move> {
    match pos.board[to.0 as int] {
        Some(p) => if p.color() == color {
            seq![]
        } else {
            seq![cap_mv(quiet_mv(from, to))]
        },
        None => seq![quiet_mv(from, to)],
    }
}

/// The moves of a knight or king along its first `n` jumps or steps.
pub open spec fn leaper_moves(pos: Position, from: Square, color: Color, kind: PieceKind, n: nat) -> Seq<
    Move,
>
    decreases n,
{
    if n == 0 {
        seq![]
    } else {
        let d = leaper_delta(kind, n - 1);
        leaper_moves(pos, from, color, kind, (n - 1) as nat) + match offset_spec(from, d.0, d.1) {
            None => seq![],
            Some(to) => dest_moves(pos, color, from, to),
        }
    }
}

/// The moves of a slider at `from` along one ray, continuing from `cur`, for
/// at most `steps` more squares: every empty square, then a capture of the
/// first piece met if it belongs to the other side.
pub open spec fn ray_moves(
    board: Seq<Option<Piece>>,
    color: Color,
    from: Square,
    cur: Square,
    df: int,
    dr: int,
    steps: nat,
) -> Seq<Move>
    decreases steps,
{
    if steps == 0 {
        seq![]
    } else {
        match offset_spec(cur, df, dr) {
            None => seq![],
            Some(to) => match board[to.0 as int] {
                Some(p) => if p.color() != color {
                    seq![cap_mv(quiet_mv(from, to))]
                } else {
                    seq![]
                },
                None => seq![quiet_mv(from, to)] + ray_moves(board, color, from, to, df, dr, (steps - 1) as nat),
            },
        }
    }
}

/// The moves of a slider along its first `n` directions.
pub open spec fn slider_moves(pos: Position, from: Square, color: Color, bishop: bool, n: nat) -> Seq<Move>
    decreases n,
{
    if n == 0 {
        seq![]
    } else {
        let d = slider_dir(bishop, n - 1);
        slider_moves(pos, from, color, bishop, (n - 1) as nat) + ray_moves(pos.board@, color, from, from, d.0, d.1, 8)
    }
}

/// The moves of one piece of a kind; sliders use the diagonal or the straight
/// directions as `bishop` says.
pub open spec fn piece_moves(pos: Position, color: Color, kind: PieceKind, bishop: bool, sq: Square) -> Seq<Move> {
    if kind == PieceKind::Pawn {
        pawn_moves(pos, sq, color)
    } else if kind == PieceKind::Knight || kind == PieceKind::King {
        leaper_moves(pos, sq, color, kind, 8)
    } else {
        slider_moves(pos, sq, color, bishop, 4)
    }
}

/// The moves of the pieces on the squares of `bb` from square `lo` upward.
pub open spec fn scan_moves(pos: Position, color: Color, kind: PieceKind, bishop: bool, bb: u64, lo: nat) -> Seq<
    Move,
>
    decreases 64 - lo,
{
    if lo >= 64 {
        seq![]
    } else {
        (if crate::bits::bit(bb, lo as u64) {
            piece_moves(pos, color, kind, bishop, Square(lo as u8))
        } else {
            seq![]
        }) + scan_moves(pos, color, kind, bishop, bb, lo + 1)
    }
}

/// The castling moves: the king on its home square and not attacked, the
/// right present, the rook in its corner, the squares between empty, and the
/// squares the king crosses and lands on not attacked; king side first.
pub open spec fn castling_moves(pos: Position, color: Color) -> Seq<Move> {
    let rank: int = if color == Color::White {
        0
    } else {
        7
    };
    let opp = color.opposit();
    let b = pos.board@;
    let king_from = Square((rank * 8 + 4) as u8);
    let rook = Some(Piece::from(color, PieceKind::Rook));
    let sq = |f: int| Square((rank * 8 + f) as u8);
    let ks: u8 = if color == Color::White {
        1
    } else {
        4
    };
    let qs: u8 = if color == Color::White {
        2
    } else {
        8
    };
    if b[rank * 8 + 4] != Some(Piece::from(color, PieceKind::King)) {
        seq![]
    } else if attacked(b, king_from, opp) {
        seq![]
    } else {
        let kside = if pos.castling.has(ks) && b[rank * 8 + 7] == rook && b[rank * 8 + 5] is None
            && b[rank * 8 + 6] is None && !attacked(b, sq(5), opp) && !attacked(b, sq(6), opp) {
            seq![castle_mv(quiet_mv(king_from, sq(6)))]
        } else {
            seq![]
        };
        let qside = if pos.castling.has(qs) && b[rank * 8] == rook && b[rank * 8 + 1] is None
            && b[rank * 8 + 2] is None && b[rank * 8 + 3] is None && !attacked(b, sq(2), opp)
            && !attacked(b, sq(3), opp) {
            seq![castle_mv(quiet_mv(king_from, sq(2)))]
        } else {
            seq![]
        };
        kside + qside
    }
}

/// The bitboard of a kind of piece of a color.
pub open spec fn kind_bb(pos: Position, color: Color, kind: PieceKind) -> u64 {
    pos.pieces[Piece::from(color, kind).idx() as int].0
}

/// The pseudo-legal moves of the side to move, in generation order: pawns,
/// knights, bishops, rooks, queens on diagonals, queens on lines, king,
/// castling; pieces of one kind from the lowest square up.
pub open spec fn pseudo_moves(pos: Position) -> Seq<Move> {
    let c = pos.side_to_move;
    scan_moves(pos, c, PieceKind::Pawn, false, kind_bb(pos, c, PieceKind::Pawn), 0) + scan_moves(
        pos,
        c,
        PieceKind::Knight,
        false,
        kind_bb(pos, c, PieceKind::Knight),
        0,
    ) + scan_moves(pos, c, PieceKind::Bishop, true, kind_bb(pos, c, PieceKind::Bishop), 0) + scan_moves(
        pos,
        c,
        PieceKind::Rook,
        false,
        kind_bb(pos, c, PieceKind::Rook),
        0,
    ) + scan_moves(pos, c, PieceKind::Queen, true, kind_bb(pos, c, PieceKind::Queen), 0) + scan_moves(
        pos,
        c,
        PieceKind::Queen,
        false,
        kind_bb(pos, c, PieceKind::Queen),
        0,
    ) + scan_moves(pos, c, PieceKind::King, false, kind_bb(pos, c, PieceKind::King), 0)
        + castling_moves(pos, c)
}

fn push_promotions(from: Square, to: Square, capture: bool, moves: &mut Vec<Move>)
    requires
        from.0 < 64,
        to.0 < 64,
    ensures
        final(moves)@ == old(moves)@ + promotions(from, to, capture),
{
    let ghost start = moves@;
    let mut k: usize = 0;
    while k < 4
        invariant
            k <= 4,
            from.0 < 64,
            to.0 < 64,
            moves@ == start + promotions(from, to, capture).take(k as int),
        decreases 4 - k,
    {
        let promoted = match k {
            0 => PieceKind::Knight,
            1 => PieceKind::Bishop,
            2 => PieceKind::Rook,
            _ => PieceKind::Queen,
        };
        let mv = Move::with_promotion(from, to, promoted);
        let mv = if capture {
            mv.with_capture()
        } else {
            mv
        };
        assert(mv == promotions(from, to, capture)[k as int]);
        moves.push(mv);
        k = k + 1;
        assert(moves@ =~= start + promotions(from, to, capture).take(k as int));
    }
    assert(promotions(from, to, capture).take(4) =~= promotions(from, to, capture));
}

fn pawn_push_direction(color: Color) -> (r: i8)
    ensures
        r == pawn_dir(color),
{
    match color {
        Color::White => 1,
        Color::Black => -1,
    }
}

fn pawn_start_rank(color: Color) -> (r: u8)
    ensures
        r == pawn_start(color),
{
    match color {
        Color::White => 1,
        Color::Black => 6,
    }
}

fn pawn_promotion_rank(color: Color) -> (r: u8)
    ensures
        r == pawn_promo_rank(color),
{
    match color {
        Color::White => 7,
        Color::Black => 0,
    }
}

#[verifier::spinoff_prover]
fn generate_pawn_moves_from(pos: &Position, color: Color, from: Square, moves: &mut Vec<Move>)
    requires
        from.0 < 64,
    ensures
        final(moves)@ == old(moves)@ + pawn_moves(*pos, from, color),
{
    let ghost start = moves@;
    let direction = pawn_push_direction(color);
    let start_rank = pawn_start_rank(color);
    let promotion_rank = pawn_promotion_rank(color);
    match offset_square(from, 0, direction) {
        Some(one_step) => {
            if pos.piece_at(one_step).is_none() {
                if one_step.rank() == promotion_rank {
                    push_promotions(from, one_step, false, moves);
                } else {
                    moves.push(Move::new(from, one_step));
                }
                if from.rank() == start_rank {
                    match offset_square(one_step, 0, direction) {
                        Some(two_step) => {
                            if pos.piece_at(two_step).is_none() {
                                moves.push(Move::new(from, two_step).with_double_pawn_push());
                            }
                        },
                        None => {},
                    }
                }
            }
        },
        None => {},
    }
    assert(moves@ =~= start + pawn_push_moves(*pos, from, color));
    let ghost mid1 = moves@;
    let mut side: usize = 0;
    while side < 2
        invariant
            side <= 2,
            from.0 < 64,
            direction == pawn_dir(color),
            promotion_rank == pawn_promo_rank(color),
            side == 0 ==> moves@ == mid1,
            side == 1 ==> moves@ == mid1 + pawn_capture_moves(*pos, from, color, -1),
            side == 2 ==> moves@ == mid1 + pawn_capture_moves(*pos, from, color, -1) + pawn_capture_moves(*pos, from, color, 1),
        decreases 2 - side,
    {
        let file_delta: i8 = if side == 0 {
            -1
        } else {
            1
        };
        let ghost before = moves@;
        match offset_square(from, file_delta, direction) {
            Some(to) => {
                let target = pos.piece_at(to);
                if target.is_some() && target.unwrap().color() == color.opposit() {
                    if to.rank() == promotion_rank {
                        push_promotions(from, to, true, moves);
                    } else {
                        moves.push(Move::new(from, to).with_capture());
                    }
                } else if pos.ep_square == Some(to) {
                    moves.push(Move::new(from, to).with_en_passant());
                }
            },
            None => {},
        }
        assert(moves@ =~= before + pawn_capture_moves(*pos, from, color, file_delta as int));
        side = side + 1;
    }
    assert(moves@ =~= start + pawn_moves(*pos, from, color));
}

fn push_if_valid_destination(pos: &Position, color: Color, from: Square, to: Square, moves: &mut Vec<Move>)
    requires
        from.0 < 64,
        to.0 < 64,
    ensures
        final(moves)@ == old(moves)@ + dest_moves(*pos, color, from, to),
{
    match pos.piece_at(to) {
        Some(piece) => {
            if piece.color() != color {
                moves.push(Move::new(from, to).with_capture());
            } else {
                assert(dest_moves(*pos, color, from, to) =~= seq![]);
            }
        },
        None => moves.push(Move::new(from, to)),
    }
    assert(final(moves)@ =~= old(moves)@ + dest_moves(*pos, color, from, to));
}

fn generate_leaper_moves_from(pos: &Position, color: Color, kind: PieceKind, from: Square, moves: &mut Vec<Move>)
    requires
        from.0 < 64,
    ensures
        final(moves)@ == old(moves)@ + leaper_moves(*pos, from, color, kind, 8),
{
    let ghost start = moves@;
    let mut i: usize = 0;
    while i < 8
        invariant
            i <= 8,
            from.0 < 64,
            moves@ == start + leaper_moves(*pos, from, color, kind, i as nat),
        decreases 8 - i,
    {
        let (file_delta, rank_delta) = leaper_offset(kind, i);
        let ghost before = moves@;
        match offset_square(from, file_delta, rank_delta) {
            Some(to) => {
                push_if_valid_destination(pos, color, from, to, moves);
            },
            None => {},
        }
        i = i + 1;
        assert(moves@ =~= start + leaper_moves(*pos, from, color, kind, i as nat));
    }
}

#[verifier::spinoff_prover]
fn generate_ray_moves(pos: &Position, color: Color, from: Square, df: i8, dr: i8, moves: &mut Vec<Move>)
    requires
        from.0 < 64,
        -1 <= df <= 1,
        -1 <= dr <= 1,
    ensures
        final(moves)@ == old(moves)@ + ray_moves(pos.board@, color, from, from, df as int, dr as int, 8),
{
    let ghost start = moves@;
    let mut current = from;
    let mut steps: u8 = 8;
    assert(start + ray_moves(pos.board@, color, from, from, df as int, dr as int, 8) =~= moves@ + ray_moves(
        pos.board@,
        color,
        from,
        current,
        df as int,
        dr as int,
        steps as nat,
    ));
    while steps > 0
        invariant_except_break
            start + ray_moves(pos.board@, color, from, from, df as int, dr as int, 8) == moves@ + ray_moves(
                pos.board@,
                color,
                from,
                current,
                df as int,
                dr as int,
                steps as nat,
            ),
        invariant
            steps <= 8,
            from.0 < 64,
            -1 <= df <= 1,
            -1 <= dr <= 1,
        ensures
            moves@ == start + ray_moves(pos.board@, color, from, from, df as int, dr as int, 8),
        decreases steps,
    {
        let ghost before = moves@;
        let ghost cur = current;
        let ghost st = steps;
        match offset_square(current, df, dr) {
            None => {
                assert(moves@ =~= moves@ + ray_moves(pos.board@, color, from, current, df as int, dr as int, steps as nat));
                break;
            },
            Some(to) => {
                match pos.piece_at(to) {
                    Some(piece) => {
                        if piece.color() != color {
                            moves.push(Move::new(from, to).with_capture());
                        }
                        assert(moves@ =~= before + ray_moves(pos.board@, color, from, cur, df as int, dr as int, st as nat));
                        break;
                    },
                    None => {
                        moves.push(Move::new(from, to));
                        current = to;
                        steps = steps - 1;
                        assert(before + ray_moves(pos.board@, color, from, cur, df as int, dr as int, st as nat) =~= moves@
                            + ray_moves(pos.board@, color, from, current, df as int, dr as int, steps as nat));
                    },
                }
            },
        }
    }
    assert(moves@ =~= start + ray_moves(pos.board@, color, from, from, df as int, dr as int, 8));
}

fn generate_slider_moves_from(pos: &Position, color: Color, bishop: bool, from: Square, moves: &mut Vec<Move>)
    requires
        from.0 < 64,
    ensures
        final(moves)@ == old(moves)@ + slider_moves(*pos, from, color, bishop, 4),
{
    let ghost start = moves@;
    let mut j: usize = 0;
    while j < 4
        invariant
            j <= 4,
            from.0 < 64,
            moves@ == start + slider_moves(*pos, from, color, bishop, j as nat),
        decreases 4 - j,
    {
        let (df, dr) = slider_direction(bishop, j);
        generate_ray_moves(pos, color, from, df, dr, moves);
        j = j + 1;
        assert(moves@ =~= start + slider_moves(*pos, from, color, bishop, j as nat));
    }
}

proof fn lemma_scan_skip(pos: Position, c: Color, k: PieceKind, b: bool, bb: u64, lo: nat, t: nat)
    requires
        lo <= t <= 64,
        forall|j: int| lo <= j < t ==> !#[trigger] crate::bits::bit(bb, j as u64),
    ensures
        scan_moves(pos, c, k, b, bb, lo) == scan_moves(pos, c, k, b, bb, t),
    decreases t - lo,
{
    if lo < t {
        lemma_scan_skip(pos, c, k, b, bb, lo + 1, t);
        assert(!crate::bits::bit(bb, lo as u64));
        assert(scan_moves(pos, c, k, b, bb, lo) =~= scan_moves(pos, c, k, b, bb, lo + 1));
    }
}

proof fn lemma_scan_agree(pos: Position, c: Color, k: PieceKind, b: bool, bb1: u64, bb2: u64, lo: nat)
    requires
        lo <= 64,
        forall|j: int| lo <= j < 64 ==> #[trigger] crate::bits::bit(bb1, j as u64) == crate::bits::bit(bb2, j as u64),
    ensures
        scan_moves(pos, c, k, b, bb1, lo) == scan_moves(pos, c, k, b, bb2, lo),
    decreases 64 - lo,
{
    if lo < 64 {
        lemma_scan_agree(pos, c, k, b, bb1, bb2, lo + 1);
        assert(crate::bits::bit(bb1, lo as u64) == crate::bits::bit(bb2, lo as u64));
    }
}

proof fn lemma_scan_pop(pos: Position, c: Color, k: PieceKind, b: bool, bb: u64, t: nat, bb2: u64)
    requires
        t < 64,
        crate::bits::bit(bb, t as u64),
        forall|j: int| 0 <= j < t ==> !#[trigger] crate::bits::bit(bb, j as u64),
        forall|i: int| 0 <= i < 64 ==> #[trigger] crate::bits::bit(bb2, i as u64) == (crate::bits::bit(bb, i as u64) && i != t),
    ensures
        scan_moves(pos, c, k, b, bb, 0) == piece_moves(pos, c, k, b, Square(t as u8)) + scan_moves(pos, c, k, b, bb2, 0),
{
    lemma_scan_skip(pos, c, k, b, bb, 0, t);
    lemma_scan_agree(pos, c, k, b, bb, bb2, t + 1);
    assert forall|j: int| 0 <= j < t + 1 implies !#[trigger] crate::bits::bit(bb2, j as u64) by {
        assert(crate::bits::bit(bb2, j as u64) == (crate::bits::bit(bb, j as u64) && j != t));
    }
    lemma_scan_skip(pos, c, k, b, bb2, 0, t + 1);
}

proof fn lemma_scan_zero(pos: Position, c: Color, k: PieceKind, b: bool, lo: nat)
    requires
        lo <= 64,
    ensures
        scan_moves(pos, c, k, b, 0u64, lo) == Seq::<Move>::empty(),
    decreases 64 - lo,
{
    if lo < 64 {
        lemma_scan_zero(pos, c, k, b, lo + 1);
        let j = lo as u64;
        assert(j < 64 ==> (0u64 >> j) & 1u64 != 1u64) by (bit_vector);
        assert(scan_moves(pos, c, k, b, 0u64, lo) =~= Seq::<Move>::empty());
    }
}

/// The moves of every piece of one kind of the given color, lowest square first.
#[verifier::spinoff_prover]
#[verifier::rlimit(50)]
fn generate_kind_moves(pos: &Position, color: Color, kind: PieceKind, bishop: bool, moves: &mut Vec<Move>)
    ensures
        final(moves)@ == old(moves)@ + scan_moves(*pos, color, kind, bishop, kind_bb(*pos, color, kind), 0),
{
    let ghost start = moves@;
    let ghost orig = kind_bb(*pos, color, kind);
    let mut pieces = pos.pieces_of(color, kind);
    assert(moves@ + scan_moves(*pos, color, kind, bishop, pieces.0, 0) =~= start + scan_moves(*pos, color, kind, bishop, orig, 0));
    loop
        invariant
            moves@ + scan_moves(*pos, color, kind, bishop, pieces.0, 0) == start + scan_moves(*pos, color, kind, bishop, orig, 0),
        ensures
            moves@ == start + scan_moves(*pos, color, kind, bishop, orig, 0),
        decreases pieces.0,
    {
        let ghost before = pieces.0;
        let ghost bbefore = pieces;
        match pieces.pop_lsb() {
            None => {
                proof {
                    lemma_scan_zero(*pos, color, kind, bishop, 0);
                }
                assert(moves@ =~= moves@ + scan_moves(*pos, color, kind, bishop, pieces.0, 0));
                break;
            },
            Some(from) => {
                proof {
                    let x = before;
                    assert(x != 0u64 ==> x & ((x - 1u64) as u64) < x) by (bit_vector);
                    assert forall|j: int| 0 <= j < from.0 implies !#[trigger] crate::bits::bit(before, j as u64) by {
                        assert(!bbefore.has(j));
                    }
                    assert forall|i: int| 0 <= i < 64 implies #[trigger] crate::bits::bit(pieces.0, i as u64) == (crate::bits::bit(before, i as u64) && i != from.0) by {
                        assert(pieces.has(i) == (bbefore.has(i) && i != from.0));
                    }
                    lemma_scan_pop(*pos, color, kind, bishop, before, from.0 as nat, pieces.0);
                }
                let ghost mid = moves@;
                if kind == PieceKind::Pawn {
                    generate_pawn_moves_from(pos, color, from, moves);
                } else if kind == PieceKind::Knight || kind == PieceKind::King {
                    generate_leaper_moves_from(pos, color, kind, from, moves);
                } else {
                    generate_slider_moves_from(pos, color, bishop, from, moves);
                }
                assert(moves@ == mid + piece_moves(*pos, color, kind, bishop, from));
                assert(mid + scan_moves(*pos, color, kind, bishop, before, 0) =~= moves@ + scan_moves(*pos, color, kind, bishop, pieces.0, 0));
            },
        }
    }
}

fn generate_pawn_moves(pos: &Position, color: Color, moves: &mut Vec<Move>)
    ensures
        final(moves)@ == old(moves)@ + scan_moves(*pos, color, PieceKind::Pawn, false, kind_bb(*pos, color, PieceKind::Pawn), 0),
{
    generate_kind_moves(pos, color, PieceKind::Pawn, false, moves);
}

fn generate_leaper_moves(pos: &Position, color: Color, kind: PieceKind, moves: &mut Vec<Move>)
    requires
        kind == PieceKind::Knight || kind == PieceKind::King,
    ensures
        final(moves)@ == old(moves)@ + scan_moves(*pos, color, kind, false, kind_bb(*pos, color, kind), 0),
{
    generate_kind_moves(pos, color, kind, false, moves);
}

fn generate_slider_moves(pos: &Position, color: Color, kind: PieceKind, bishop: bool, moves: &mut Vec<Move>)
    requires
        kind == PieceKind::Bishop || kind == PieceKind::Rook || kind == PieceKind::Queen,
    ensures
        final(moves)@ == old(moves)@ + scan_moves(*pos, color, kind, bishop, kind_bb(*pos, color, kind), 0),
{
    generate_kind_moves(pos, color, kind, bishop, moves);
}

#[verifier::spinoff_prover]
fn generate_castling_moves(pos: &Position, color: Color, moves: &mut Vec<Move>)
    ensures
        final(moves)@ == old(moves)@ + castling_moves(*pos, color),
{
    let rank: u8 = match color {
        Color::White => 0,
        Color::Black => 7,
    };
    let king_from = Square::from_file_rank(4, rank);
    let kingside_rook = Square::from_file_rank(7, rank);
    let queenside_rook = Square::from_file_rank(0, rank);
    let king = Piece::from(color, PieceKind::King);
    let rook = Piece::from(color, PieceKind::Rook);

    if pos.piece_at(king_from) != Some(king) {
        assert(castling_moves(*pos, color) =~= seq![]);
        assert(final(moves)@ =~= old(moves)@ + castling_moves(*pos, color));
        return;
    }
    let opponent = color.opposit();
    if is_square_attacked(pos, king_from, opponent) {
        assert(castling_moves(*pos, color) =~= seq![]);
        assert(final(moves)@ =~= old(moves)@ + castling_moves(*pos, color));
        return;
    }
    let (kingside_right, queenside_right) = match color {
        Color::White => (CastlingRights::WHITE_KINGSIDE, CastlingRights::WHITE_QUEENSIDE),
        Color::Black => (CastlingRights::BLACK_KINGSIDE, CastlingRights::BLACK_QUEENSIDE),
    };
    let ghost start = moves@;
    if pos.castling.has(kingside_right) && pos.piece_at(kingside_rook) == Some(rook) && pos.piece_at(
        Square::from_file_rank(5, rank),
    ).is_none() && pos.piece_at(Square::from_file_rank(6, rank)).is_none() && !is_square_attacked(
        pos,
        Square::from_file_rank(5, rank),
        opponent,
    ) && !is_square_attacked(pos, Square::from_file_rank(6, rank), opponent) {
        moves.push(Move::new(king_from, Square::from_file_rank(6, rank)).with_castling());
    }
    let ghost mid = moves@;
    if pos.castling.has(queenside_right) && pos.piece_at(queenside_rook) == Some(rook) && pos.piece_at(
        Square::from_file_rank(1, rank),
    ).is_none() && pos.piece_at(Square::from_file_rank(2, rank)).is_none() && pos.piece_at(
        Square::from_file_rank(3, rank),
    ).is_none() && !is_square_attacked(pos, Square::from_file_rank(2, rank), opponent)
        && !is_square_attacked(pos, Square::from_file_rank(3, rank), opponent) {
        moves.push(Move::new(king_from, Square::from_file_rank(2, rank)).with_castling());
    }
    assert(moves@ =~= start + castling_moves(*pos, color));
}

/// All moves the side to move could make if its own king could stand in check.
#[verifier::spinoff_prover]
pub fn generate_pseudo_legal(pos: &Position, moves: &mut Vec<Move>)
    ensures
        final(moves)@ == pseudo_moves(*pos),
{
    moves.clear();
    let color = pos.side_to_move;
    generate_pawn_moves(pos, color, moves);
    generate_leaper_moves(pos, color, PieceKind::Knight, moves);
    generate_slider_moves(pos, color, PieceKind::Bishop, true, moves);
    generate_slider_moves(pos, color, PieceKind::Rook, false, moves);
    generate_slider_moves(pos, color, PieceKind::Queen, true, moves);
    generate_slider_moves(pos, color, PieceKind::Queen, false, moves);
    generate_leaper_moves(pos, color, PieceKind::King, moves);
    generate_castling_moves(pos, color, moves);
    assert(moves@ =~= pseudo_moves(*pos));
}

/// A position search and legality testing can play from: sound, with room
/// in the halfmove clock for a quiet move and, when Black is to move, in the
/// move number.
pub open spec fn playable(pos: Position) -> bool {
    &&& sound(pos)
    &&& pos.halfmove_clock < 65535
    &&& pos.side_to_move == Color::Black ==> pos.fullmove_number < 65535
}

/// A pawn of the side to move on square `f` captures diagonally onto `e`.
pub open spec fn captures_onto(pos: Position, f: int, e: Square) -> bool {
    &&& 0 <= f < 64
    &&& pos.board[f] == Some(Piece::from(pos.side_to_move, PieceKind::Pawn))
    &&& (offset_spec(Square(f as u8), 1, pawn_dir(pos.side_to_move)) == Some(e) || offset_spec(
        Square(f as u8),
        -1,
        pawn_dir(pos.side_to_move),
    ) == Some(e))
}

/// The en passant square holds a piece of the side to move and one of its
/// pawns could capture en passant onto it: the capture would land on its
/// own piece.
pub open spec fn ep_onto_own(pos: Position) -> bool {
    pos.ep_square matches Some(e) && (pos.board[e.0 as int] matches Some(q) && q.color() == pos.side_to_move)
        && exists|f: int| #[trigger] captures_onto(pos, f, e)
}

/// Whether an en passant capture of the side to move would land on one of
/// its own pieces.
pub fn ep_capture_onto_own(pos: &Position) -> (r: bool)
    requires
        pos.wf(),
    ensures
        r == ep_onto_own(*pos),
{
    let e = match pos.ep_square {
        Some(e) => e,
        None => {
            return false;
        },
    };
    let side = pos.side_to_move;
    match pos.piece_at(e) {
        Some(q) => {
            if q.color() != side {
                return false;
            }
        },
        None => {
            return false;
        },
    }
    let pawn = Piece::from(side, PieceKind::Pawn);
    let dir = pawn_push_direction(side);
    let mut f: usize = 0;
    while f < 64
        invariant
            f <= 64,
            pos.ep_square == Some(e),
            side == pos.side_to_move,
            pos.board[e.0 as int] matches Some(q) && q.color() == side,
            pawn == Piece::from(side, PieceKind::Pawn),
            dir == pawn_dir(side),
            forall|g: int| 0 <= g < f ==> !#[trigger] captures_onto(*pos, g, e),
        decreases 64 - f,
    {
        let here = pos.board[f];
        let is_pawn = match here {
            Some(p) => p == pawn,
            None => false,
        };
        if is_pawn {
            let sq = Square(f as u8);
            let right = match offset_square(sq, 1, dir) {
                Some(t) => t.0 == e.0,
                None => false,
            };
            let left = match offset_square(sq, -1, dir) {
                Some(t) => t.0 == e.0,
                None => false,
            };
            if right || left {
                assert(captures_onto(*pos, f as int, e));
                return true;
            }
        }
        f = f + 1;
    }
    false
}

/// A consistent position whose kings are tracked and where no en passant
/// capture would land on a piece of the side to move.
pub open spec fn sound(pos: Position) -> bool {
    &&& pos.wf()
    &&& pos.kings_tracked()
    &&& !ep_onto_own(pos)
}

/// A pawn moves toward the far rank, one or two ranks.
pub open spec fn pawn_forward(pos: Position, m: Move) -> bool {
    mover(pos, m).kind() == PieceKind::Pawn ==> {
        let d = pawn_dir(pos.side_to_move);
        m.to().0 / 8 == m.from().0 / 8 + d || m.to().0 / 8 == m.from().0 / 8 + 2 * d
    }
}

/// The en passant square a move leaves is on the board and empty after it.
pub open spec fn ep_left_empty(pos: Position, m: Move) -> bool {
    crate::position::next_ep_of(m) matches Some(e) ==> e.0 < 64 && crate::position::board_after(pos, m)[e.0 as int] is None
}

/// A move as the generator makes it: it fits the position, a pawn goes
/// forward, and the en passant square it leaves is empty.
pub open spec fn good_move(pos: Position, m: Move) -> bool {
    &&& move_fits(pos, m)
    &&& pawn_forward(pos, m)
    &&& ep_left_empty(pos, m)
}

pub open spec fn all_good(pos: Position, s: Seq<Move>) -> bool {
    forall|i: int| 0 <= i < s.len() ==> #[trigger] good_move(pos, s[i])
}

proof fn lemma_all_good_concat(pos: Position, a: Seq<Move>, b: Seq<Move>)
    requires
        all_good(pos, a),
        all_good(pos, b),
    ensures
        all_good(pos, a + b),
{
    assert forall|i: int| 0 <= i < (a + b).len() implies #[trigger] good_move(pos, (a + b)[i]) by {
        if i < a.len() {
            assert((a + b)[i] == a[i]);
        } else {
            assert((a + b)[i] == b[i - a.len()]);
        }
    }
}

proof fn lemma_pack_bits(f: u32, t: u32, code: u32)
    by (bit_vector)
    requires
        f < 64u32,
        t < 64u32,
        code <= 4u32,
    ensures
        ((f | (t << 6u32)) & 63u32 == f && ((f | (t << 6u32)) & 0xFC0u32) >> 6u32 == t && ((f | (t << 6u32)) & 0x7000u32) >> 12u32 == 0u32 && ((f | (t << 6u32)) & 0x8000u32 != 0) == false && ((f | (t << 6u32)) & 0x10000u32 != 0) == false && ((f | (t << 6u32)) & 0x20000u32 != 0) == false && ((f | (t << 6u32)) & 0x40000u32 != 0) == false),
        (((f | (t << 6u32)) | 0x8000u32) & 63u32 == f && (((f | (t << 6u32)) | 0x8000u32) & 0xFC0u32) >> 6u32 == t && (((f | (t << 6u32)) | 0x8000u32) & 0x7000u32) >> 12u32 == 0u32 && (((f | (t << 6u32)) | 0x8000u32) & 0x8000u32 != 0) == true && (((f | (t << 6u32)) | 0x8000u32) & 0x10000u32 != 0) == false && (((f | (t << 6u32)) | 0x8000u32) & 0x20000u32 != 0) == false && (((f | (t << 6u32)) | 0x8000u32) & 0x40000u32 != 0) == false),
        (((f | (t << 6u32)) | 0x10000u32) & 63u32 == f && (((f | (t << 6u32)) | 0x10000u32) & 0xFC0u32) >> 6u32 == t && (((f | (t << 6u32)) | 0x10000u32) & 0x7000u32) >> 12u32 == 0u32 && (((f | (t << 6u32)) | 0x10000u32) & 0x8000u32 != 0) == false && (((f | (t << 6u32)) | 0x10000u32) & 0x10000u32 != 0) == true && (((f | (t << 6u32)) | 0x10000u32) & 0x20000u32 != 0) == false && (((f | (t << 6u32)) | 0x10000u32) & 0x40000u32 != 0) == false),
        (((f | (t << 6u32)) | 0x20000u32 | 0x8000u32) & 63u32 == f && (((f | (t << 6u32)) | 0x20000u32 | 0x8000u32) & 0xFC0u32) >> 6u32 == t && (((f | (t << 6u32)) | 0x20000u32 | 0x8000u32) & 0x7000u32) >> 12u32 == 0u32 && (((f | (t << 6u32)) | 0x20000u32 | 0x8000u32) & 0x8000u32 != 0) == true && (((f | (t << 6u32)) | 0x20000u32 | 0x8000u32) & 0x10000u32 != 0) == false && (((f | (t << 6u32)) | 0x20000u32 | 0x8000u32) & 0x20000u32 != 0) == true && (((f | (t << 6u32)) | 0x20000u32 | 0x8000u32) & 0x40000u32 != 0) == false),
        (((f | (t << 6u32)) | 0x40000u32) & 63u32 == f && (((f | (t << 6u32)) | 0x40000u32) & 0xFC0u32) >> 6u32 == t && (((f | (t << 6u32)) | 0x40000u32) & 0x7000u32) >> 12u32 == 0u32 && (((f | (t << 6u32)) | 0x40000u32) & 0x8000u32 != 0) == false && (((f | (t << 6u32)) | 0x40000u32) & 0x10000u32 != 0) == false && (((f | (t << 6u32)) | 0x40000u32) & 0x20000u32 != 0) == false && (((f | (t << 6u32)) | 0x40000u32) & 0x40000u32 != 0) == true),
        (((f | (t << 6u32)) | (code << 12u32)) & 63u32 == f && (((f | (t << 6u32)) | (code << 12u32)) & 0xFC0u32) >> 6u32 == t && (((f | (t << 6u32)) | (code << 12u32)) & 0x7000u32) >> 12u32 == code && (((f | (t << 6u32)) | (code << 12u32)) & 0x8000u32 != 0) == false && (((f | (t << 6u32)) | (code << 12u32)) & 0x10000u32 != 0) == false && (((f | (t << 6u32)) | (code << 12u32)) & 0x20000u32 != 0) == false && (((f | (t << 6u32)) | (code << 12u32)) & 0x40000u32 != 0) == false),
        ((((f | (t << 6u32)) | (code << 12u32)) | 0x8000u32) & 63u32 == f && ((((f | (t << 6u32)) | (code << 12u32)) | 0x8000u32) & 0xFC0u32) >> 6u32 == t && ((((f | (t << 6u32)) | (code << 12u32)) | 0x8000u32) & 0x7000u32) >> 12u32 == code && ((((f | (t << 6u32)) | (code << 12u32)) | 0x8000u32) & 0x8000u32 != 0) == true && ((((f | (t << 6u32)) | (code << 12u32)) | 0x8000u32) & 0x10000u32 != 0) == false && ((((f | (t << 6u32)) | (code << 12u32)) | 0x8000u32) & 0x20000u32 != 0) == false && ((((f | (t << 6u32)) | (code << 12u32)) | 0x8000u32) & 0x40000u32 != 0) == false),
{
}

/// The fields of the packed moves the generator builds.
proof fn lemma_mv_shapes(from: Square, to: Square, k: PieceKind)
    requires
        from.0 < 64,
        to.0 < 64,
    ensures
        quiet_mv(from, to).from() == from,
        quiet_mv(from, to).to() == to,
        quiet_mv(from, to).promotion() is None,
        !quiet_mv(from, to).is_capture(),
        !quiet_mv(from, to).is_double_pawn_push(),
        !quiet_mv(from, to).is_en_passant(),
        !quiet_mv(from, to).is_castling(),
        cap_mv(quiet_mv(from, to)).from() == from,
        cap_mv(quiet_mv(from, to)).to() == to,
        cap_mv(quiet_mv(from, to)).promotion() is None,
        cap_mv(quiet_mv(from, to)).is_capture(),
        !cap_mv(quiet_mv(from, to)).is_double_pawn_push(),
        !cap_mv(quiet_mv(from, to)).is_en_passant(),
        !cap_mv(quiet_mv(from, to)).is_castling(),
        dpp_mv(quiet_mv(from, to)).from() == from,
        dpp_mv(quiet_mv(from, to)).to() == to,
        dpp_mv(quiet_mv(from, to)).promotion() is None,
        !dpp_mv(quiet_mv(from, to)).is_capture(),
        dpp_mv(quiet_mv(from, to)).is_double_pawn_push(),
        !dpp_mv(quiet_mv(from, to)).is_en_passant(),
        !dpp_mv(quiet_mv(from, to)).is_castling(),
        ep_mv(quiet_mv(from, to)).from() == from,
        ep_mv(quiet_mv(from, to)).to() == to,
        ep_mv(quiet_mv(from, to)).promotion() is None,
        ep_mv(quiet_mv(from, to)).is_capture(),
        !ep_mv(quiet_mv(from, to)).is_double_pawn_push(),
        ep_mv(quiet_mv(from, to)).is_en_passant(),
        !ep_mv(quiet_mv(from, to)).is_castling(),
        castle_mv(quiet_mv(from, to)).from() == from,
        castle_mv(quiet_mv(from, to)).to() == to,
        castle_mv(quiet_mv(from, to)).promotion() is None,
        !castle_mv(quiet_mv(from, to)).is_capture(),
        !castle_mv(quiet_mv(from, to)).is_double_pawn_push(),
        !castle_mv(quiet_mv(from, to)).is_en_passant(),
        castle_mv(quiet_mv(from, to)).is_castling(),
        promotion_code(k) != 0 ==> {
            &&& promo_one(from, to, k, false).from() == from
            &&& promo_one(from, to, k, false).to() == to
            &&& promo_one(from, to, k, false).promotion() == Some(k)
            &&& !promo_one(from, to, k, false).is_capture()
            &&& !promo_one(from, to, k, false).is_double_pawn_push()
            &&& !promo_one(from, to, k, false).is_en_passant()
            &&& !promo_one(from, to, k, false).is_castling()
            &&& promo_one(from, to, k, true).from() == from
            &&& promo_one(from, to, k, true).to() == to
            &&& promo_one(from, to, k, true).promotion() == Some(k)
            &&& promo_one(from, to, k, true).is_capture()
            &&& !promo_one(from, to, k, true).is_double_pawn_push()
            &&& !promo_one(from, to, k, true).is_en_passant()
            &&& !promo_one(from, to, k, true).is_castling()
        },
{
    lemma_pack_bits(from.0 as u32, to.0 as u32, promotion_code(k));
}

proof fn lemma_offset_facts(sq: Square, df: int, dr: int)
    requires
        sq.0 < 64,
    ensures
        offset_spec(sq, df, dr) matches Some(t) ==> {
            &&& t.0 < 64
            &&& t.0 % 8 == sq.0 % 8 + df
            &&& t.0 / 8 == sq.0 / 8 + dr
            &&& (df != 0 || dr != 0) ==> t != sq
        },
{
}

#[verifier::spinoff_prover]
#[verifier::rlimit(50)]
proof fn lemma_pawn_push_good(pos: Position, from: Square)
    requires
        playable(pos),
        from.0 < 64,
        pos.board[from.0 as int] == Some(Piece::from(pos.side_to_move, PieceKind::Pawn)),
    ensures
        all_good(pos, pawn_push_moves(pos, from, pos.side_to_move)),
{
    let c = pos.side_to_move;
    let dir = pawn_dir(c);
    lemma_offset_facts(from, 0, dir);
    match offset_spec(from, 0, dir) {
        None => {},
        Some(one) => {
            if pos.board[one.0 as int] is None {
                lemma_mv_shapes(from, one, PieceKind::Knight);
                lemma_mv_shapes(from, one, PieceKind::Bishop);
                lemma_mv_shapes(from, one, PieceKind::Rook);
                lemma_mv_shapes(from, one, PieceKind::Queen);
                let first = if one.0 / 8 == pawn_promo_rank(c) {
                    promotions(from, one, false)
                } else {
                    seq![quiet_mv(from, one)]
                };
                assert(all_good(pos, first));
                lemma_offset_facts(one, 0, dir);
                let second = if from.0 / 8 == pawn_start(c) {
                    match offset_spec(one, 0, dir) {
                        Some(two) => if pos.board[two.0 as int] is None {
                            seq![dpp_mv(quiet_mv(from, two))]
                        } else {
                            seq![]
                        },
                        None => seq![],
                    }
                } else {
                    seq![]
                };
                if from.0 / 8 == pawn_start(c) {
                    match offset_spec(one, 0, dir) {
                        Some(two) => {
                            if pos.board[two.0 as int] is None {
                                lemma_mv_shapes(from, two, PieceKind::Knight);
                                let m = dpp_mv(quiet_mv(from, two));
                                assert(next_ep_of(m) == Some(one));
                                assert(board_after(pos, m)[one.0 as int] is None);
                                assert(good_move(pos, m));
                            }
                        },
                        None => {},
                    }
                }
                assert(all_good(pos, second));
                lemma_all_good_concat(pos, first, second);
            }
        },
    }
}

#[verifier::spinoff_prover]
#[verifier::rlimit(50)]
proof fn lemma_pawn_capture_good(pos: Position, from: Square, df: int)
    requires
        playable(pos),
        from.0 < 64,
        df == 1 || df == -1,
        pos.board[from.0 as int] == Some(Piece::from(pos.side_to_move, PieceKind::Pawn)),
    ensures
        all_good(pos, pawn_capture_moves(pos, from, pos.side_to_move, df)),
{
    let c = pos.side_to_move;
    let dir = pawn_dir(c);
    lemma_offset_facts(from, df, dir);
    match offset_spec(from, df, dir) {
        None => {},
        Some(to) => {
            lemma_mv_shapes(from, to, PieceKind::Knight);
            lemma_mv_shapes(from, to, PieceKind::Bishop);
            lemma_mv_shapes(from, to, PieceKind::Rook);
            lemma_mv_shapes(from, to, PieceKind::Queen);
            if pos.board[to.0 as int] is Some && pos.board[to.0 as int].unwrap().color() == c.opposit() {
            } else if pos.ep_square == Some(to) {
                assert(Square((from.0 as int) as u8) == from);
                assert(captures_onto(pos, from.0 as int, to));
                let m = ep_mv(quiet_mv(from, to));
                assert(capture_square_of(m).0 != from.0);
                assert(good_move(pos, m));
            }
        },
    }
}

#[verifier::spinoff_prover]
#[verifier::rlimit(50)]
proof fn lemma_pawn_good(pos: Position, from: Square)
    requires
        playable(pos),
        from.0 < 64,
        pos.board[from.0 as int] == Some(Piece::from(pos.side_to_move, PieceKind::Pawn)),
    ensures
        all_good(pos, pawn_moves(pos, from, pos.side_to_move)),
{
    let c = pos.side_to_move;
    lemma_pawn_push_good(pos, from);
    lemma_pawn_capture_good(pos, from, -1);
    lemma_pawn_capture_good(pos, from, 1);
    lemma_all_good_concat(pos, pawn_push_moves(pos, from, c), pawn_capture_moves(pos, from, c, -1));
    lemma_all_good_concat(pos, pawn_push_moves(pos, from, c) + pawn_capture_moves(pos, from, c, -1),
        pawn_capture_moves(pos, from, c, 1));
}

#[verifier::spinoff_prover]
#[verifier::rlimit(50)]
proof fn lemma_dest_good(pos: Position, from: Square, to: Square, kind: PieceKind)
    requires
        playable(pos),
        from.0 < 64,
        to.0 < 64,
        from != to,
        kind != PieceKind::Pawn,
        pos.board[from.0 as int] == Some(Piece::from(pos.side_to_move, kind)),
    ensures
        all_good(pos, dest_moves(pos, pos.side_to_move, from, to)),
{
    lemma_mv_shapes(from, to, PieceKind::Knight);
}

#[verifier::spinoff_prover]
#[verifier::rlimit(50)]
proof fn lemma_leaper_good(pos: Position, from: Square, kind: PieceKind, n: nat)
    requires
        playable(pos),
        from.0 < 64,
        kind == PieceKind::Knight || kind == PieceKind::King,
        pos.board[from.0 as int] == Some(Piece::from(pos.side_to_move, kind)),
    ensures
        all_good(pos, leaper_moves(pos, from, pos.side_to_move, kind, n)),
    decreases n,
{
    if n > 0 {
        lemma_leaper_good(pos, from, kind, (n - 1) as nat);
        let d = leaper_delta(kind, n - 1);
        lemma_offset_facts(from, d.0, d.1);
        let last = match offset_spec(from, d.0, d.1) {
            None => seq![],
            Some(to) => dest_moves(pos, pos.side_to_move, from, to),
        };
        match offset_spec(from, d.0, d.1) {
            None => {},
            Some(to) => {
                lemma_dest_good(pos, from, to, kind);
            },
        }
        lemma_all_good_concat(pos, leaper_moves(pos, from, pos.side_to_move, kind, (n - 1) as nat), last);
    }
}

proof fn lemma_ray_step(from: Square, cur: Square, to: Square, df: int, dr: int)
    requires
        -1 <= df <= 1,
        -1 <= dr <= 1,
        df != 0 || dr != 0,
        to.0 % 8 == cur.0 % 8 + df,
        to.0 / 8 == cur.0 / 8 + dr,
        (cur.0 % 8 - from.0 % 8) * df + (cur.0 / 8 - from.0 / 8) * dr >= 0,
    ensures
        (to.0 % 8 - from.0 % 8) * df + (to.0 / 8 - from.0 / 8) * dr >= 1,
        to != from,
{
    assert((to.0 % 8 - from.0 % 8) * df + (to.0 / 8 - from.0 / 8) * dr == (cur.0 % 8 - from.0 % 8) * df
        + (cur.0 / 8 - from.0 / 8) * dr + df * df + dr * dr) by (nonlinear_arith)
        requires
            to.0 % 8 == cur.0 % 8 + df,
            to.0 / 8 == cur.0 / 8 + dr,
    ;
    assert(df * df + dr * dr >= 1) by (nonlinear_arith)
        requires
            df != 0 || dr != 0,
    ;
}

#[verifier::spinoff_prover]
proof fn lemma_ray_good(pos: Position, from: Square, kind: PieceKind, cur: Square, df: int, dr: int, steps: nat)
    requires
        playable(pos),
        from.0 < 64,
        cur.0 < 64,
        kind != PieceKind::Pawn,
        pos.board[from.0 as int] == Some(Piece::from(pos.side_to_move, kind)),
        -1 <= df <= 1,
        -1 <= dr <= 1,
        df != 0 || dr != 0,
        (cur.0 % 8 - from.0 % 8) * df + (cur.0 / 8 - from.0 / 8) * dr >= 0,
    ensures
        all_good(pos, ray_moves(pos.board@, pos.side_to_move, from, cur, df, dr, steps)),
    decreases steps,
{
    if steps > 0 {
        lemma_offset_facts(cur, df, dr);
        match offset_spec(cur, df, dr) {
            None => {},
            Some(to) => {
                lemma_ray_step(from, cur, to, df, dr);
                lemma_dest_good(pos, from, to, kind);
                let d = dest_moves(pos, pos.side_to_move, from, to);
                match pos.board[to.0 as int] {
                    Some(p) => {
                        assert(ray_moves(pos.board@, pos.side_to_move, from, cur, df, dr, steps) == d);
                    },
                    None => {
                        assert(good_move(pos, d[0]));
                        lemma_ray_good(pos, from, kind, to, df, dr, (steps - 1) as nat);
                        lemma_all_good_concat(pos, d, ray_moves(pos.board@, pos.side_to_move, from, to, df, dr, (steps - 1) as nat));
                    },
                }
            },
        }
    }
}

#[verifier::spinoff_prover]
#[verifier::rlimit(50)]
proof fn lemma_slider_good(pos: Position, from: Square, kind: PieceKind, bishop: bool, n: nat)
    requires
        playable(pos),
        from.0 < 64,
        kind != PieceKind::Pawn,
        n <= 4,
        pos.board[from.0 as int] == Some(Piece::from(pos.side_to_move, kind)),
    ensures
        all_good(pos, slider_moves(pos, from, pos.side_to_move, bishop, n)),
    decreases n,
{
    if n > 0 {
        lemma_slider_good(pos, from, kind, bishop, (n - 1) as nat);
        let d = slider_dir(bishop, n - 1);
        lemma_ray_good(pos, from, kind, from, d.0, d.1, 8);
        lemma_all_good_concat(pos, slider_moves(pos, from, pos.side_to_move, bishop, (n - 1) as nat),
            ray_moves(pos.board@, pos.side_to_move, from, from, d.0, d.1, 8));
    }
}

#[verifier::spinoff_prover]
#[verifier::rlimit(50)]
proof fn lemma_scan_good(pos: Position, kind: PieceKind, bishop: bool, lo: nat)
    requires
        playable(pos),
        lo <= 64,
    ensures
        all_good(pos, scan_moves(pos, pos.side_to_move, kind, bishop, kind_bb(pos, pos.side_to_move, kind), lo)),
    decreases 64 - lo,
{
    if lo < 64 {
        lemma_scan_good(pos, kind, bishop, lo + 1);
        let c = pos.side_to_move;
        let bb = kind_bb(pos, c, kind);
        let here = if crate::bits::bit(bb, lo as u64) {
            piece_moves(pos, c, kind, bishop, Square(lo as u8))
        } else {
            seq![]
        };
        if crate::bits::bit(bb, lo as u64) {
            let k = Piece::from(c, kind).idx() as int;
            assert(pos.pieces[k].has(lo as int));
            assert(pos.board[lo as int] == Some(Piece::from(c, kind)));
            let sq = Square(lo as u8);
            if kind == PieceKind::Pawn {
                lemma_pawn_good(pos, sq);
            } else if kind == PieceKind::Knight || kind == PieceKind::King {
                lemma_leaper_good(pos, sq, kind, 8);
            } else {
                lemma_slider_good(pos, sq, kind, bishop, 4);
            }
        }
        lemma_all_good_concat(pos, here, scan_moves(pos, c, kind, bishop, bb, lo + 1));
    }
}

#[verifier::spinoff_prover]
#[verifier::rlimit(50)]
proof fn lemma_castling_good(pos: Position)
    requires
        playable(pos),
    ensures
        all_good(pos, castling_moves(pos, pos.side_to_move)),
{
    let c = pos.side_to_move;
    let rank: int = if c == Color::White {
        0
    } else {
        7
    };
    let king_from = Square((rank * 8 + 4) as u8);
    lemma_mv_shapes(king_from, Square((rank * 8 + 6) as u8), PieceKind::Knight);
    lemma_mv_shapes(king_from, Square((rank * 8 + 2) as u8), PieceKind::Knight);
}

/// Every pseudo-legal move of a playable position fits it, moves a pawn
/// forward, and leaves its en passant square empty.
pub proof fn lemma_pseudo_good(pos: Position)
    requires
        playable(pos),
    ensures
        all_good(pos, pseudo_moves(pos)),
{
    let c = pos.side_to_move;
    lemma_scan_good(pos, PieceKind::Pawn, false, 0);
    lemma_scan_good(pos, PieceKind::Knight, false, 0);
    lemma_scan_good(pos, PieceKind::Bishop, true, 0);
    lemma_scan_good(pos, PieceKind::Rook, false, 0);
    lemma_scan_good(pos, PieceKind::Queen, true, 0);
    lemma_scan_good(pos, PieceKind::Queen, false, 0);
    lemma_scan_good(pos, PieceKind::King, false, 0);
    lemma_castling_good(pos);
    let s1 = scan_moves(pos, c, PieceKind::Pawn, false, kind_bb(pos, c, PieceKind::Pawn), 0);
    let s2 = scan_moves(pos, c, PieceKind::Knight, false, kind_bb(pos, c, PieceKind::Knight), 0);
    let s3 = scan_moves(pos, c, PieceKind::Bishop, true, kind_bb(pos, c, PieceKind::Bishop), 0);
    let s4 = scan_moves(pos, c, PieceKind::Rook, false, kind_bb(pos, c, PieceKind::Rook), 0);
    let s5 = scan_moves(pos, c, PieceKind::Queen, true, kind_bb(pos, c, PieceKind::Queen), 0);
    let s6 = scan_moves(pos, c, PieceKind::Queen, false, kind_bb(pos, c, PieceKind::Queen), 0);
    let s7 = scan_moves(pos, c, PieceKind::King, false, kind_bb(pos, c, PieceKind::King), 0);
    let s8 = castling_moves(pos, c);
    lemma_all_good_concat(pos, s1, s2);
    lemma_all_good_concat(pos, s1 + s2, s3);
    lemma_all_good_concat(pos, s1 + s2 + s3, s4);
    lemma_all_good_concat(pos, s1 + s2 + s3 + s4, s5);
    lemma_all_good_concat(pos, s1 + s2 + s3 + s4 + s5, s6);
    lemma_all_good_concat(pos, s1 + s2 + s3 + s4 + s5 + s6, s7);
    lemma_all_good_concat(pos, s1 + s2 + s3 + s4 + s5 + s6 + s7, s8);
}

/// A move is legal when, after it, the mover's king is not attacked.
pub open spec fn is_legal(pos: Position, m: Move) -> bool {
    let side = pos.side_to_move;
    !attacked(board_after(pos, m), king_sq_after(pos, m)[side.idx() as int], side.opposit())
}

/// The legal moves among `ms`, in order.
pub open spec fn legal_filter(pos: Position, ms: Seq<Move>) -> Seq<Move>
    decreases ms.len(),
{
    if ms.len() == 0 {
        seq![]
    } else {
        legal_filter(pos, ms.drop_last()) + if is_legal(pos, ms.last()) {
            seq![ms.last()]
        } else {
            seq![]
        }
    }
}

/// The legal moves of a position, in generation order.
pub open spec fn legal_moves(pos: Position) -> Seq<Move> {
    legal_filter(pos, pseudo_moves(pos))
}

/// The legal moves among a list are exactly its moves that are legal, in
/// their order: each kept move is legal and occurs in the list, and each
/// legal move of the list is kept.
proof fn lemma_legal_filter(pos: Position, ms: Seq<Move>)
    ensures
        forall|k: int| 0 <= k < legal_filter(pos, ms).len() ==> is_legal(pos, #[trigger] legal_filter(pos, ms)[k])
            && ms.contains(legal_filter(pos, ms)[k]),
        forall|k: int| 0 <= k < ms.len() && is_legal(pos, ms[k]) ==> legal_filter(pos, ms).contains(#[trigger] ms[k]),
    decreases ms.len(),
{
    if ms.len() > 0 {
        let d = ms.drop_last();
        lemma_legal_filter(pos, d);
        let f = legal_filter(pos, d);
        let r = legal_filter(pos, ms);
        assert forall|k: int| 0 <= k < r.len() implies is_legal(pos, #[trigger] r[k]) && ms.contains(r[k]) by {
            if k < f.len() {
                assert(r[k] == f[k]);
                let t = choose|t: int| 0 <= t < d.len() && d[t] == f[k];
                assert(ms[t] == d[t]);
            } else {
                assert(r[k] == ms.last());
                assert(ms[ms.len() - 1] == ms.last());
            }
        }
        assert forall|k: int| 0 <= k < ms.len() && is_legal(pos, ms[k]) implies r.contains(#[trigger] ms[k]) by {
            if k < d.len() {
                assert(d[k] == ms[k]);
                let t = choose|t: int| 0 <= t < f.len() && f[t] == d[k];
                assert(r[t] == f[t]);
            } else {
                assert(r[r.len() - 1] == ms.last());
            }
        }
    }
}

/// Every legal move is a generated move that does not leave the mover's
/// king attacked, and every such generated move is legal.
pub proof fn lemma_legal_moves_exact(pos: Position)
    ensures
        forall|k: int| 0 <= k < legal_moves(pos).len() ==> is_legal(pos, #[trigger] legal_moves(pos)[k])
            && pseudo_moves(pos).contains(legal_moves(pos)[k]),
        forall|k: int| 0 <= k < pseudo_moves(pos).len() && is_legal(pos, pseudo_moves(pos)[k])
            ==> legal_moves(pos).contains(#[trigger] pseudo_moves(pos)[k]),
{
    lemma_legal_filter(pos, pseudo_moves(pos));
}

#[verifier::spinoff_prover]
#[verifier::rlimit(50)]
proof fn lemma_filter_good(pos: Position, ms: Seq<Move>)
    requires
        all_good(pos, ms),
    ensures
        all_good(pos, legal_filter(pos, ms)),
    decreases ms.len(),
{
    if ms.len() > 0 {
        assert(all_good(pos, ms.drop_last()));
        lemma_filter_good(pos, ms.drop_last());
        let tail = if is_legal(pos, ms.last()) {
            seq![ms.last()]
        } else {
            seq![]
        };
        assert(all_good(pos, tail));
        lemma_all_good_concat(pos, legal_filter(pos, ms.drop_last()), tail);
    }
}

/// Every legal move of a playable position is a good move of it.
pub proof fn lemma_legal_good(pos: Position)
    requires
        playable(pos),
    ensures
        all_good(pos, legal_moves(pos)),
{
    lemma_pseudo_good(pos);
    lemma_filter_good(pos, pseudo_moves(pos));
}

/// A good move of a sound position leads to a sound position, with each clock
/// advanced by at most one.
pub proof fn lemma_sound_after(pos: Position, m: Move, mid: Position, st: State)
    requires
        sound(pos),
        good_move(pos, m),
        made(pos, m, mid, st),
    ensures
        sound(mid),
        mid.halfmove_clock <= pos.halfmove_clock + 1,
        mid.fullmove_number <= pos.fullmove_number + 1,
{
}

/// The legal moves of the side to move; the position is left as it was.
#[verifier::spinoff_prover]
pub fn generate_legal(pos: &mut Position, moves: &mut Vec<Move>)
    requires
        playable(*old(pos)),
    ensures
        *final(pos) == *old(pos),
        final(moves)@ == legal_moves(*old(pos)),
{
    moves.clear();
    let moving_side = pos.side_to_move;
    let mut pseudo = Vec::new();
    generate_pseudo_legal(pos, &mut pseudo);
    let ghost p0 = *pos;
    proof {
        lemma_pseudo_good(p0);
    }
    let len = pseudo.len();
    let mut i: usize = 0;
    assert(moves@ =~= legal_filter(p0, pseudo@.take(0)));
    while i < len
        invariant
            *pos == p0,
            playable(p0),
            len == pseudo@.len(),
            pseudo@ == pseudo_moves(p0),
            all_good(p0, pseudo@),
            moving_side == p0.side_to_move,
            i <= len,
            moves@ == legal_filter(p0, pseudo@.take(i as int)),
        decreases len - i,
    {
        let mv = pseudo[i];
        assert(good_move(p0, pseudo@[i as int]));
        let state = pos.make_move(mv);
        let ghost mid = *pos;
        let is_legal = !is_square_attacked(pos, pos.king_sq[moving_side.idx()], moving_side.opposit());
        proof {
            lemma_made_can_unmake(p0, mv, mid, state);
        }
        pos.unmake_move(mv, state);
        proof {
            lemma_unmake_restores(p0, mv, mid, state, *pos);
        }
        if is_legal {
            moves.push(mv);
        }
        assert(pseudo@.take(i + 1).drop_last() =~= pseudo@.take(i as int));
        i = i + 1;
    }
    assert(pseudo@.take(len as int) =~= pseudo@);
}

/// The number of leaves of the legal move tree of a position to a depth,
/// counted modulo 2^64.
pub open spec fn perft_spec(pos: Position, depth: nat) -> u64
    decreases depth, 0nat,
{
    if depth == 0 {
        1
    } else if depth == 1 {
        legal_moves(pos).len() as u64
    } else {
        perft_sum(pos, (depth - 1) as nat, legal_moves(pos))
    }
}

/// The leaves to depth `d` below each of the moves, added modulo 2^64.
pub open spec fn perft_sum(pos: Position, d: nat, ms: Seq<Move>) -> u64
    decreases d, ms.len() + 1,
{
    if ms.len() == 0 {
        0
    } else {
        vstd::wrapping::u64_specs::wrapping_add(
            perft_sum(pos, d, ms.drop_last()),
            perft_spec(after_move(pos, ms.last()), d),
        )
    }
}

/// Summing depth zero below each move counts the moves.
proof fn lemma_perft_sum_zero(pos: Position, ms: Seq<Move>)
    requires
        ms.len() <= u64::MAX,
    ensures
        perft_sum(pos, 0, ms) == ms.len() as u64,
    decreases ms.len(),
{
    if ms.len() > 0 {
        lemma_perft_sum_zero(pos, ms.drop_last());
        let k = ms.drop_last().len() as u64;
        assert(k == ms.len() - 1);
        assert(perft_spec(after_move(pos, ms.last()), 0) == 1);
        assert(vstd::wrapping::u64_specs::wrapping_add(k, 1u64) == k + 1);
        assert(perft_sum(pos, 0, ms) == k + 1);
    }
}

/// The perft recurrence: one leaf at depth zero, one per legal move at
/// depth one, and at every deeper depth the sum, over the legal moves, of
/// the leaves below the position each move leads to.
pub proof fn lemma_perft_recurrence(pos: Position, d: nat)
    ensures
        perft_spec(pos, 0) == 1,
        perft_spec(pos, 1) == legal_moves(pos).len() as u64,
        d >= 1 ==> perft_spec(pos, d + 1) == perft_sum(pos, d, legal_moves(pos)),
        legal_moves(pos).len() <= u64::MAX ==> perft_spec(pos, 1) == perft_sum(pos, 0, legal_moves(pos)),
{
    if legal_moves(pos).len() <= u64::MAX {
        lemma_perft_sum_zero(pos, legal_moves(pos));
    }
}

/// Counts the leaf nodes of the legal move tree to the given depth; the
/// position is left as it was.
#[verifier::spinoff_prover]
pub fn perft(pos: &mut Position, depth: u32) -> (r: u64)
    requires
        sound(*old(pos)),
        old(pos).halfmove_clock + depth <= 65535,
        crate::search::ply_index(*old(pos)) + depth <= 131070,
    ensures
        *final(pos) == *old(pos),
        r == perft_spec(*old(pos), depth as nat),
    decreases depth,
{
    if depth == 0 {
        return 1;
    }
    let mut moves = Vec::new();
    generate_legal(pos, &mut moves);
    if depth == 1 {
        return moves.len() as u64;
    }
    let ghost p0 = *pos;
    proof {
        lemma_legal_good(p0);
    }
    let mut nodes: u64 = 0;
    let len = moves.len();
    assert(moves@.take(0) =~= Seq::<Move>::empty());
    let mut i: usize = 0;
    while i < len
        invariant
            *pos == p0,
            sound(p0),
            p0.halfmove_clock + depth <= 65535,
            crate::search::ply_index(p0) + depth <= 131070,
            depth >= 2,
            len == moves@.len(),
            moves@ == legal_moves(p0),
            all_good(p0, moves@),
            i <= len,
            nodes == perft_sum(p0, (depth - 1) as nat, moves@.take(i as int)),
        decreases len - i,
    {
        let mv = moves[i];
        assert(good_move(p0, moves@[i as int]));
        let state = pos.make_move(mv);
        let ghost mid = *pos;
        proof {
            lemma_sound_after(p0, mv, mid, state);
            lemma_after_move(p0, mv, mid, state);
            assert(moves@.take(i + 1).drop_last() =~= moves@.take(i as int));
            assert(moves@.take(i + 1).last() == mv);
        }
        nodes = nodes.wrapping_add(perft(pos, depth - 1));
        proof {
            lemma_made_can_unmake(p0, mv, mid, state);
        }
        pos.unmake_move(mv, state);
        proof {
            lemma_unmake_restores(p0, mv, mid, state, *pos);
        }
        i = i + 1;
    }
    assert(moves@.take(len as int) =~= moves@);
    nodes
}

/// Whether any piece of `by` attacks `square`.
pub fn is_square_attacked(pos: &Position, square: Square, by: Color) -> (r: bool)
    ensures
        r == attacked(pos.board@, square, by),
{
    is_attacked_by_pawn(pos, square, by) || is_attacked_by_leaper(pos, square, by, PieceKind::Knight)
        || is_attacked_by_leaper(pos, square, by, PieceKind::King) || is_attacked_by_slider(
        pos,
        square,
        by,
        true,
    ) || is_attacked_by_slider(pos, square, by, false)
}

/// Whether the king of `color` stands attacked.
pub fn in_check(pos: &Position, color: Color) -> (r: bool)
    ensures
        r == attacked(pos.board@, pos.king_sq[color.idx() as int], color.opposit()),
{
    is_square_attacked(pos, pos.king_sq[color.idx()], color.opposit())
}

} // verus!
