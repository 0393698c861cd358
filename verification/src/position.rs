use vstd::prelude::*;
use crate::bits::bit;
use crate::types::{Bitboard, Color, Piece, PieceKind, Square};
use crate::mv::{Move, lemma_move_fields_in_range};
use crate::bits::lemma_bits_ext;
use crate::zobrist::{
    board_hash, castling_key, effective_ep, en_passant_file_key, lemma_board_hash_empty,
    lemma_board_hash_update, lemma_xor_facts, piece_square_key, position_hash, side_to_move_key,
    square_key, effective_ep_file, ep_hash, side_hash, lemma_xor_shift, lemma_xor_replace_castling,
    lemma_xor_replace_side, lemma_xor_replace_ep,
};

verus! {

/// A chess position: the board as a square-to-piece table, the same
/// information as bitboards, and the game state needed to continue play.
#[derive(Debug, Clone, PartialEq, Eq)]
pub struct Position {
    pub pieces: [Bitboard; 12],
    pub colors: [Bitboard; 2],
    pub occupied: Bitboard,
    pub board: [Option<Piece>; 64],
    pub side_to_move: Color,
    pub castling: CastlingRights,
    pub ep_square: Option<Square>,
    pub halfmove_clock: u16,
    pub fullmove_number: u16,
    pub king_sq: [Square; 2],
    pub zobrist: u64,
}

/// What `make_move` needs to take a move back.
#[derive(Debug, Clone, Copy)]
pub struct State {
    pub castling: CastlingRights,
    pub ep_square: Option<Square>,
    pub halfmove_clock: u16,
    pub captured: Option<Piece>,
    pub zobrist: u64,
}

/// Castling rights as four flag bits.
#[derive(Debug, Clone, Copy, PartialEq, Eq, Structural)]
pub struct CastlingRights(pub u8);

impl CastlingRights {
    /// No castling rights at all.
    #[allow(non_snake_case)]
    pub fn EMPTY() -> (r: CastlingRights)
        ensures
            r.0 == 0,
    {
        CastlingRights(0)
    }

    /// White may castle on the king side.
    pub const WHITE_KINGSIDE: u8 = 1;
    /// White may castle on the queen side.
    pub const WHITE_QUEENSIDE: u8 = 2;
    /// Black may castle on the king side.
    pub const BLACK_KINGSIDE: u8 = 4;
    /// Black may castle on the queen side.
    pub const BLACK_QUEENSIDE: u8 = 8;

    /// Whether any of the rights in `mask` is held.
    #[verifier::allow_in_spec]
    pub fn has(self, mask: u8) -> bool
        returns
            self.0 & mask != 0,
    {
        self.0 & mask != 0
    }

    /// Gives up the rights in `mask`.
    pub fn remove(&mut self, mask: u8)
        ensures
            final(self).0 == old(self).0 & !mask,
    {
        self.0 = self.0 & !mask;
    }

    /// Grants the rights in `mask`.
    pub fn insert(&mut self, mask: u8)
        ensures
            final(self).0 == old(self).0 | mask,
    {
        self.0 = self.0 | mask;
    }
}

/// After inserting a flag it is present; after removing it, it is absent, and
/// the other flags are untouched either way.
pub proof fn lemma_castling_insert_remove(rights: u8, mask: u8, other: u8)
    ensures
        (rights | mask) & mask != 0 <==> mask != 0,
        (rights & !mask) & mask == 0,
        other & mask == 0 ==> ((rights | mask) & other == rights & other),
        other & mask == 0 ==> ((rights & !mask) & other == rights & other),
{
    assert((rights | mask) & mask != 0 <==> mask != 0) by (bit_vector);
    assert((rights & !mask) & mask == 0) by (bit_vector);
    assert(other & mask == 0 ==> ((rights | mask) & other == rights & other)) by (bit_vector);
    assert(other & mask == 0 ==> ((rights & !mask) & other == rights & other)) by (bit_vector);
}

/// The reasons a FEN string can be refused.
#[derive(Debug, Clone, Copy, PartialEq, Eq, Structural)]
pub enum FenError {
    WrongFieldCount,
    InvalidBoard,
    InvalidSideToMove,
    InvalidCastling,
    InvalidEnPassant,
    InvalidHalfmoveClock,
    InvalidFullmoveNumber,
    MissingKing(Color),
    TooManyKings(Color),
}

/// The name of a color as the error messages spell it.
pub open spec fn color_name(c: Color) -> Seq<char> {
    match c {
        Color::White => "White"@,
        Color::Black => "Black"@,
    }
}

/// The description of a FEN error.
pub open spec fn fen_error_text(e: FenError) -> Seq<char> {
    match e {
        FenError::WrongFieldCount => "FEN must contain exactly six fields"@,
        FenError::InvalidBoard => "FEN board field is invalid"@,
        FenError::InvalidSideToMove => "FEN side-to-move field is invalid"@,
        FenError::InvalidCastling => "FEN castling field is invalid"@,
        FenError::InvalidEnPassant => "FEN en passant field is invalid"@,
        FenError::InvalidHalfmoveClock => "FEN halfmove clock is invalid"@,
        FenError::InvalidFullmoveNumber => "FEN fullmove number is invalid"@,
        FenError::MissingKing(c) => "FEN is missing a "@ + color_name(c) + " king"@,
        FenError::TooManyKings(c) => "FEN has more than one "@ + color_name(c) + " king"@,
    }
}

impl FenError {
    /// A human readable description of the error.
    pub fn message(&self) -> (r: String)
        ensures
            r@ == fen_error_text(*self),
    {
        let mut text = String::new();
        match self {
            FenError::WrongFieldCount => text.append("FEN must contain exactly six fields"),
            FenError::InvalidBoard => text.append("FEN board field is invalid"),
            FenError::InvalidSideToMove => text.append("FEN side-to-move field is invalid"),
            FenError::InvalidCastling => text.append("FEN castling field is invalid"),
            FenError::InvalidEnPassant => text.append("FEN en passant field is invalid"),
            FenError::InvalidHalfmoveClock => text.append("FEN halfmove clock is invalid"),
            FenError::InvalidFullmoveNumber => text.append("FEN fullmove number is invalid"),
            FenError::MissingKing(color) => {
                text.append("FEN is missing a ");
                match color {
                    Color::White => text.append("White"),
                    Color::Black => text.append("Black"),
                }
                text.append(" king");
            },
            FenError::TooManyKings(color) => {
                text.append("FEN has more than one ");
                match color {
                    Color::White => text.append("White"),
                    Color::Black => text.append("Black"),
                }
                text.append(" king");
            },
        }
        proof {
            assert(Seq::<char>::empty() + "FEN must contain exactly six fields"@ =~= "FEN must contain exactly six fields"@);
            assert(Seq::<char>::empty() + "FEN board field is invalid"@ =~= "FEN board field is invalid"@);
            assert(Seq::<char>::empty() + "FEN side-to-move field is invalid"@ =~= "FEN side-to-move field is invalid"@);
            assert(Seq::<char>::empty() + "FEN castling field is invalid"@ =~= "FEN castling field is invalid"@);
            assert(Seq::<char>::empty() + "FEN en passant field is invalid"@ =~= "FEN en passant field is invalid"@);
            assert(Seq::<char>::empty() + "FEN halfmove clock is invalid"@ =~= "FEN halfmove clock is invalid"@);
            assert(Seq::<char>::empty() + "FEN fullmove number is invalid"@ =~= "FEN fullmove number is invalid"@);
            assert(Seq::<char>::empty() + "FEN is missing a "@ =~= "FEN is missing a "@);
            assert(Seq::<char>::empty() + "FEN has more than one "@ =~= "FEN has more than one "@);
        }
        text
    }
}

impl Position {
    /// Every bitboard agrees with the board table.
    pub open spec fn bits_agree(self) -> bool {
        &&& forall|i: int, k: int|
            0 <= i < 64 && 0 <= k < 12 ==> #[trigger] self.pieces[k].has(i) == (self.board[i] matches Some(
                p,
            ) && p.idx() == k)
        &&& forall|i: int, c: int|
            0 <= i < 64 && 0 <= c < 2 ==> #[trigger] self.colors[c].has(i) == (self.board[i] matches Some(
                p,
            ) && p.color().idx() == c)
        &&& forall|i: int| 0 <= i < 64 ==> #[trigger] self.occupied.has(i) == self.board[i] is Some
    }

    /// Squares stored in the position are on the board.
    pub open spec fn squares_valid(self) -> bool {
        &&& self.ep_square matches Some(sq) ==> sq.0 < 64
        &&& self.king_sq[0].0 < 64
        &&& self.king_sq[1].0 < 64
    }

    /// A consistent position: bitboards agree with the board, stored squares
    /// are on the board and the stored hash is the hash of the position.
    pub open spec fn wf(self) -> bool {
        &&& self.bits_agree()
        &&& self.squares_valid()
        &&& self.zobrist == position_hash(self)
    }

    /// Every king on the board stands on the square recorded for its color.
    pub open spec fn kings_tracked(self) -> bool {
        forall|i: int|
            0 <= i < 64 ==> (#[trigger] self.board[i] matches Some(p) ==> (p.kind() == PieceKind::King
                ==> self.king_sq[p.color().idx() as int].0 == i))
    }

    /// A position with no pieces, white to move, no rights and move number one.
    pub fn empty() -> (r: Self)
        ensures
            r.wf(),
            r.kings_tracked(),
            forall|i: int| 0 <= i < 64 ==> r.board[i] is None,
            r.side_to_move == Color::White,
            r.castling.0 == 0,
            r.ep_square is None,
            r.halfmove_clock == 0,
            r.fullmove_number == 1,
            r.zobrist == 0,
            r.king_sq[0] == Square(0),
            r.king_sq[1] == Square(0),
            forall|k: int| 0 <= k < 12 ==> #[trigger] r.pieces[k].0 == 0,
            r.colors[0].0 == 0,
            r.colors[1].0 == 0,
            r.occupied.0 == 0,
    {
        let none = Bitboard::EMPTY();
        let r = Position {
            pieces: [none;12],
            colors: [none;2],
            occupied: none,
            board: [None;64],
            side_to_move: Color::White,
            castling: CastlingRights::EMPTY(),
            ep_square: None,
            halfmove_clock: 0,
            fullmove_number: 1,
            king_sq: [Square(0);2],
            zobrist: 0,
        };
        proof {
            assert(0u64 >> 0u64 == 0u64) by (bit_vector);
            assert forall|s: u64| s < 64 implies !bit(0u64, s) by {
                assert(s < 64 ==> (0u64 >> s) & 1u64 == 0u64) by (bit_vector);
            }
            assert forall|i: int, k: int| 0 <= i < 64 && 0 <= k < 12 implies #[trigger] r.pieces[k].has(i) == (r.board[i] matches Some(p) && p.idx() == k) by {
                assert(!bit(0u64, i as u64));
            }
            assert forall|i: int, c: int| 0 <= i < 64 && 0 <= c < 2 implies #[trigger] r.colors[c].has(i) == (r.board[i] matches Some(p) && p.color().idx() == c) by {
                assert(!bit(0u64, i as u64));
            }
            assert forall|i: int| 0 <= i < 64 implies #[trigger] r.occupied.has(i) == r.board[i] is Some by {
                assert(!bit(0u64, i as u64));
            }
            lemma_board_hash_empty(r.board@, 64);
            lemma_xor_facts(0u64, 0u64, 0u64);
        }
        r
    }

    /// The piece on a square, if any.
    pub fn piece_at(&self, sq: Square) -> (r: Option<Piece>)
        requires
            sq.0 < 64,
        ensures
            r == self.board[sq.0 as int],
    {
        self.board[sq.idx()]
    }

    /// The squares holding pieces of a color.
    pub fn color_bb(&self, c: Color) -> (r: Bitboard)
        ensures
            r == self.colors[c.idx() as int],
    {
        self.colors[c.idx()]
    }

    /// The squares holding a given piece.
    pub fn piece_bb(&self, p: Piece) -> (r: Bitboard)
        ensures
            r == self.pieces[p.idx() as int],
    {
        self.pieces[p.idx()]
    }

    /// The squares holding pieces of a color and kind.
    pub fn pieces_of(&self, c: Color, k: PieceKind) -> (r: Bitboard)
        ensures
            r == self.pieces[Piece::from(c, k).idx() as int],
    {
        self.pieces[Piece::from(c, k).idx()]
    }

    /// The squares holding any piece.
    pub fn occupied(&self) -> (r: Bitboard)
        ensures
            r == self.occupied,
    {
        self.occupied
    }
}

/// The square of the piece that a move captures: the destination, or for en
/// passant the square beside the origin on the destination's file.
pub open spec fn capture_square_of(mv: Move) -> Square {
    if mv.is_en_passant() {
        Square(((mv.from().0 / 8) * 8 + mv.to().0 % 8) as u8)
    } else {
        mv.to()
    }
}

/// The piece a move takes off the board, read before the move.
pub open spec fn captured_by(pos: Position, mv: Move) -> Option<Piece> {
    if mv.is_capture() {
        pos.board[capture_square_of(mv).0 as int]
    } else {
        None
    }
}

/// Where the rook of a castling move starts.
pub open spec fn rook_from_of(mv: Move) -> Square {
    if mv.to().0 % 8 == 6 {
        Square(((mv.from().0 / 8) * 8 + 7) as u8)
    } else {
        Square(((mv.from().0 / 8) * 8) as u8)
    }
}

/// Where the rook of a castling move ends.
pub open spec fn rook_to_of(mv: Move) -> Square {
    if mv.to().0 % 8 == 6 {
        Square(((mv.from().0 / 8) * 8 + 5) as u8)
    } else {
        Square(((mv.from().0 / 8) * 8 + 3) as u8)
    }
}

/// The two castling rights of a color.
pub open spec fn color_rights_mask(c: Color) -> u8 {
    match c {
        Color::White => 3u8,
        Color::Black => 12u8,
    }
}

/// The castling right tied to a rook's home corner.
pub open spec fn rook_square_mask(sq: Square) -> u8 {
    if sq.0 == 0 {
        2u8
    } else if sq.0 == 7 {
        1u8
    } else if sq.0 == 56 {
        8u8
    } else if sq.0 == 63 {
        4u8
    } else {
        0u8
    }
}

/// The moving piece of a move.
pub open spec fn mover(pos: Position, mv: Move) -> Piece {
    pos.board[mv.from().0 as int].unwrap()
}

/// The board after a move.
pub open spec fn board_after(pos: Position, mv: Move) -> Seq<Option<Piece>> {
    let from = mv.from().0 as int;
    let to = mv.to().0 as int;
    let piece = mover(pos, mv);
    let b0 = pos.board@;
    let b1 = if captured_by(pos, mv) is Some {
        b0.update(capture_square_of(mv).0 as int, None)
    } else {
        b0
    };
    match mv.promotion() {
        Some(k) => b1.update(from, None).update(to, Some(Piece::from(piece.color(), k))),
        None => {
            let b2 = b1.update(from, None).update(to, Some(piece));
            if mv.is_castling() {
                b2.update(rook_from_of(mv).0 as int, None).update(
                    rook_to_of(mv).0 as int,
                    Some(Piece::from(piece.color(), PieceKind::Rook)),
                )
            } else {
                b2
            }
        },
    }
}

/// The castling rights after a move: a king move drops both rights of its
/// color, and a rook leaving or being taken on its home corner drops that right.
pub open spec fn castling_after(pos: Position, mv: Move) -> u8 {
    let piece = mover(pos, mv);
    let cap = captured_by(pos, mv);
    let c0 = pos.castling.0;
    let c1 = if piece.kind() == PieceKind::King {
        c0 & !color_rights_mask(piece.color())
    } else {
        c0
    };
    let c2 = if piece.kind() == PieceKind::Rook {
        c1 & !rook_square_mask(mv.from())
    } else {
        c1
    };
    if cap is Some && cap.unwrap().kind() == PieceKind::Rook {
        c2 & !rook_square_mask(capture_square_of(mv))
    } else {
        c2
    }
}

/// The en passant square a move leaves behind: the square a double pawn push
/// passed over.
pub open spec fn next_ep_of(mv: Move) -> Option<Square> {
    if mv.is_double_pawn_push() {
        Some(Square((((mv.from().0 / 8 + mv.to().0 / 8) / 2) * 8 + mv.from().0 % 8) as u8))
    } else {
        None
    }
}

/// The halfmove clock after a move: reset by pawn moves and captures.
pub open spec fn halfmove_after(pos: Position, mv: Move) -> int {
    if mover(pos, mv).kind() == PieceKind::Pawn || captured_by(pos, mv) is Some {
        0
    } else {
        pos.halfmove_clock + 1
    }
}

/// The move number after a move: counts up after black moves.
pub open spec fn fullmove_after(pos: Position) -> int {
    if pos.side_to_move == Color::Black {
        pos.fullmove_number + 1
    } else {
        pos.fullmove_number as int
    }
}

/// The king squares after a move.
pub open spec fn king_sq_after(pos: Position, mv: Move) -> Seq<Square> {
    let piece = mover(pos, mv);
    if mv.promotion() is None && piece.kind() == PieceKind::King {
        pos.king_sq@.update(piece.color().idx() as int, mv.to())
    } else {
        pos.king_sq@
    }
}

/// What `make_move` needs so that it does not fail.
pub open spec fn make_requires(pos: Position, mv: Move) -> bool {
    &&& pos.board[mv.from().0 as int] is Some
    &&& mv.promotion() is None && mv.is_castling() ==> (mv.to().0 % 8 == 6 || mv.to().0 % 8 == 2)
    &&& !(mover(pos, mv).kind() == PieceKind::Pawn || captured_by(pos, mv) is Some)
        ==> pos.halfmove_clock < 65535
    &&& pos.side_to_move == Color::Black ==> pos.fullmove_number < 65535
    &&& pos.ep_square matches Some(sq) ==> sq.0 < 64
}

/// A move that fits a position: the side to move moves its own piece to an
/// empty square or onto the piece it captures, a promotion is a pawn's, and
/// castling has its rook in place and its rook square free.
pub open spec fn move_fits(pos: Position, mv: Move) -> bool {
    let from = mv.from().0 as int;
    let to = mv.to().0 as int;
    let cs = capture_square_of(mv).0 as int;
    let piece = mover(pos, mv);
    let cap = captured_by(pos, mv);
    &&& make_requires(pos, mv)
    &&& piece.color() == pos.side_to_move
    &&& from != to
    &&& cap is Some ==> cs != from
    &&& (pos.board[to] is None || (cap is Some && cs == to))
    &&& mv.promotion() is Some ==> piece.kind() == PieceKind::Pawn && !mv.is_castling()
    &&& mv.is_castling() ==> {
        &&& piece == Piece::from(pos.side_to_move, PieceKind::King)
        &&& !mv.is_capture()
        &&& pos.board[rook_from_of(mv).0 as int] == Some(Piece::from(pos.side_to_move, PieceKind::Rook))
        &&& pos.board[rook_to_of(mv).0 as int] is None
    }
}

/// Everything `make_move` promises about its result.
pub open spec fn made(before: Position, mv: Move, after: Position, st: State) -> bool {
    &&& st.castling == before.castling
    &&& st.ep_square == before.ep_square
    &&& st.halfmove_clock == before.halfmove_clock
    &&& st.captured == captured_by(before, mv)
    &&& st.zobrist == before.zobrist
    &&& after.board@ == board_after(before, mv)
    &&& after.side_to_move == before.side_to_move.opposit()
    &&& after.castling.0 == castling_after(before, mv)
    &&& after.ep_square == next_ep_of(mv)
    &&& after.halfmove_clock == halfmove_after(before, mv)
    &&& after.fullmove_number == fullmove_after(before)
    &&& after.king_sq@ == king_sq_after(before, mv)
    &&& before.wf() && move_fits(before, mv) ==> after.wf()
    &&& before.kings_tracked() && move_fits(before, mv) ==> after.kings_tracked()
}

/// What `unmake_move` needs so that it does not fail.
pub open spec fn unmake_requires(pos: Position, mv: Move) -> bool {
    &&& mv.is_castling() ==> (mv.to().0 % 8 == 6 || mv.to().0 % 8 == 2)
    &&& !mv.is_castling() ==> pos.board[mv.to().0 as int] is Some
    &&& pos.side_to_move.opposit() == Color::Black ==> pos.fullmove_number >= 1
}

/// The board after taking a move back, before the captured piece returns.
pub open spec fn board_unmoved(pos: Position, mv: Move) -> Seq<Option<Piece>> {
    let side = pos.side_to_move.opposit();
    let from = mv.from().0 as int;
    let to = mv.to().0 as int;
    let b0 = pos.board@;
    if mv.is_castling() {
        b0.update(rook_to_of(mv).0 as int, None).update(
            rook_from_of(mv).0 as int,
            Some(Piece::from(side, PieceKind::Rook)),
        ).update(to, None).update(from, Some(Piece::from(side, PieceKind::King)))
    } else if mv.promotion() is Some {
        b0.update(to, None).update(from, Some(Piece::from(side, PieceKind::Pawn)))
    } else {
        b0.update(to, None).update(from, b0[to])
    }
}

/// The board after taking a move back.
pub open spec fn board_undone(pos: Position, mv: Move, st: State) -> Seq<Option<Piece>> {
    let b1 = board_unmoved(pos, mv);
    match st.captured {
        Some(q) => b1.update(capture_square_of(mv).0 as int, Some(q)),
        None => b1,
    }
}

/// The king squares after taking a move back.
pub open spec fn king_sq_undone(pos: Position, mv: Move, st: State) -> Seq<Square> {
    let side = pos.side_to_move.opposit();
    let k0 = pos.king_sq@;
    let moved = pos.board[mv.to().0 as int];
    let k1 = if mv.is_castling() {
        k0.update(side.idx() as int, mv.from())
    } else if mv.promotion() is Some {
        k0
    } else if moved is Some && moved.unwrap().kind() == PieceKind::King {
        k0.update(moved.unwrap().color().idx() as int, mv.from())
    } else {
        k0
    };
    match st.captured {
        Some(q) => if q.kind() == PieceKind::King {
            k1.update(q.color().idx() as int, capture_square_of(mv))
        } else {
            k1
        },
        None => k1,
    }
}

/// The shape of the board that lets `unmake_move` keep the bitboards in step.
pub open spec fn undo_fits(pos: Position, mv: Move, st: State) -> bool {
    let side = pos.side_to_move.opposit();
    let from = mv.from().0 as int;
    let to = mv.to().0 as int;
    let rf = rook_from_of(mv).0 as int;
    let rt = rook_to_of(mv).0 as int;
    let b0 = pos.board@;
    &&& from != to
    &&& mv.is_castling() ==> {
        let r = b0.update(rt, None).update(rf, Some(Piece::from(side, PieceKind::Rook)));
        &&& b0[rt] == Some(Piece::from(side, PieceKind::Rook))
        &&& b0[rf] is None
        &&& rf != rt
        &&& r[to] == Some(Piece::from(side, PieceKind::King))
        &&& r[from] is None
    }
    &&& !mv.is_castling() ==> b0[to] is Some && b0[from] is None
    &&& st.captured is Some ==> board_unmoved(pos, mv)[capture_square_of(mv).0 as int] is None
}

/// Everything `unmake_move` promises about its result.
pub open spec fn unmade(before: Position, mv: Move, st: State, after: Position) -> bool {
    let side = before.side_to_move.opposit();
    &&& after.board@ == board_undone(before, mv, st)
    &&& after.side_to_move == side
    &&& after.fullmove_number == if side == Color::Black {
        before.fullmove_number - 1
    } else {
        before.fullmove_number as int
    }
    &&& after.castling == st.castling
    &&& after.ep_square == st.ep_square
    &&& after.halfmove_clock == st.halfmove_clock
    &&& after.zobrist == st.zobrist
    &&& after.king_sq@ == king_sq_undone(before, mv, st)
    &&& before.bits_agree() && undo_fits(before, mv, st) ==> after.bits_agree()
}

/// After a fitting move, `unmake_move` can be called on the result with the
/// returned state, and the board has the shape it needs.
pub proof fn lemma_made_can_unmake(before: Position, mv: Move, mid: Position, st: State)
    requires
        before.wf(),
        move_fits(before, mv),
        made(before, mv, mid, st),
    ensures
        unmake_requires(mid, mv),
        undo_fits(mid, mv, st),
        mid.wf(),
{
    lemma_move_fields_in_range(mv);
    let side = before.side_to_move;
    let from = mv.from().0 as int;
    let to = mv.to().0 as int;
    assert(mid.side_to_move.opposit() == side);
    if mv.is_castling() {
        let rf = rook_from_of(mv).0 as int;
        let rt = rook_to_of(mv).0 as int;
        let b0 = mid.board@;
        let r = b0.update(rt, None).update(rf, Some(Piece::from(side, PieceKind::Rook)));
        assert(r[to] == Some(Piece::from(side, PieceKind::King)));
    }
    if st.captured is Some {
        assert(board_unmoved(mid, mv)[capture_square_of(mv).0 as int] is None);
    }
}

/// Lowers the agreement of two bit tables with one board to equality of the tables.
proof fn lemma_bits_agree_same_board(a: Position, b: Position)
    requires
        a.bits_agree(),
        b.bits_agree(),
        a.board@ == b.board@,
    ensures
        a.pieces == b.pieces,
        a.colors == b.colors,
        a.occupied == b.occupied,
{
    assert forall|k: int| 0 <= k < 12 implies a.pieces[k] == b.pieces[k] by {
        assert forall|i: u64| i < 64 implies #[trigger] bit(a.pieces[k].0, i) == bit(b.pieces[k].0, i) by {
            assert(a.pieces[k].has(i as int) == b.pieces[k].has(i as int));
        }
        lemma_bits_ext(a.pieces[k].0, b.pieces[k].0);
    }
    assert(a.pieces =~= b.pieces);
    assert forall|c: int| 0 <= c < 2 implies a.colors[c] == b.colors[c] by {
        assert forall|i: u64| i < 64 implies #[trigger] bit(a.colors[c].0, i) == bit(b.colors[c].0, i) by {
            assert(a.colors[c].has(i as int) == b.colors[c].has(i as int));
        }
        lemma_bits_ext(a.colors[c].0, b.colors[c].0);
    }
    assert(a.colors =~= b.colors);
    assert forall|i: u64| i < 64 implies #[trigger] bit(a.occupied.0, i) == bit(b.occupied.0, i) by {
        assert(a.occupied.has(i as int) == b.occupied.has(i as int));
    }
    lemma_bits_ext(a.occupied.0, b.occupied.0);
}

/// Taking back a fitting move with the state that `make_move` returned gives
/// back exactly the position the move was made from.
proof fn lemma_board_restored(before: Position, mv: Move, mid: Position, st: State)
    requires
        move_fits(before, mv),
        made(before, mv, mid, st),
    ensures
        board_undone(mid, mv, st) == before.board@,
{
    lemma_move_fields_in_range(mv);
    let b = before.board@;
    let from = mv.from().0 as int;
    let to = mv.to().0 as int;
    let cs = capture_square_of(mv).0 as int;
    let piece = mover(before, mv);
    let side = before.side_to_move;
    assert(mid.side_to_move.opposit() == side);
    let b1 = if captured_by(before, mv) is Some { b.update(cs, None) } else { b };
    if mv.is_castling() {
        assert(mv.promotion() is None);
        let rf = rook_from_of(mv).0 as int;
        let rt = rook_to_of(mv).0 as int;
        assert(board_unmoved(mid, mv) =~= b);
    } else if mv.promotion() is Some {
        assert(board_unmoved(mid, mv) =~= b1.update(to, None).update(from, Some(piece)));
    } else {
        assert(board_unmoved(mid, mv) =~= b1.update(to, None).update(from, Some(piece)));
    }
    assert(board_undone(mid, mv, st) =~= b);
}

proof fn lemma_king_sq_restored(before: Position, mv: Move, mid: Position, st: State)
    requires
        before.kings_tracked(),
        move_fits(before, mv),
        made(before, mv, mid, st),
    ensures
        king_sq_undone(mid, mv, st) == before.king_sq@,
{
    lemma_move_fields_in_range(mv);
    let piece = mover(before, mv);
    let side = before.side_to_move;
    assert(mid.side_to_move.opposit() == side);
    if mv.promotion() is None && piece.kind() == PieceKind::King {
        assert(before.king_sq[piece.color().idx() as int].0 == mv.from().0);
    }
    match st.captured {
        Some(q) => {
            if q.kind() == PieceKind::King {
                assert(before.board[capture_square_of(mv).0 as int] == Some(q));
                assert(before.king_sq[q.color().idx() as int] == capture_square_of(mv));
            }
        },
        None => {},
    }
    assert(king_sq_undone(mid, mv, st) =~= before.king_sq@);
}

/// Taking back a fitting move with the state that `make_move` returned gives
/// back exactly the position the move was made from.
pub proof fn lemma_unmake_restores(before: Position, mv: Move, mid: Position, st: State, after: Position)
    requires
        before.wf(),
        before.kings_tracked(),
        move_fits(before, mv),
        made(before, mv, mid, st),
        unmade(mid, mv, st, after),
    ensures
        after == before,
{
    lemma_made_can_unmake(before, mv, mid, st);
    lemma_board_restored(before, mv, mid, st);
    lemma_king_sq_restored(before, mv, mid, st);
    assert(after.board =~= before.board);
    assert(after.king_sq =~= before.king_sq);
    lemma_bits_agree_same_board(after, before);
}

/// The state `make_move` returns for a move: what the position held before.
pub open spec fn state_before(pos: Position, mv: Move) -> State {
    State {
        castling: pos.castling,
        ep_square: pos.ep_square,
        halfmove_clock: pos.halfmove_clock,
        captured: captured_by(pos, mv),
        zobrist: pos.zobrist,
    }
}

/// The consistent position a move leads to.
pub open spec fn after_move(pos: Position, mv: Move) -> Position {
    choose|p: Position| made(pos, mv, p, state_before(pos, mv)) && p.wf()
}

/// A move leads to one consistent position only: whatever `make_move`
/// produces from a consistent position with a fitting move is `after_move`,
/// with the state `state_before`.
pub proof fn lemma_after_move(pos: Position, mv: Move, p: Position, st: State)
    requires
        pos.wf(),
        move_fits(pos, mv),
        made(pos, mv, p, st),
    ensures
        p.wf(),
        st == state_before(pos, mv),
        after_move(pos, mv) == p,
{
    assert(st == state_before(pos, mv));
    let q = after_move(pos, mv);
    assert(made(pos, mv, q, state_before(pos, mv)) && q.wf());
    assert(q.board =~= p.board);
    assert(q.king_sq =~= p.king_sq);
    lemma_bits_agree_same_board(q, p);
    assert(q.castling == p.castling);
}

/// Number of states in `history[lo..hi]` whose hash is `z`.
pub open spec fn matching_count(history: Seq<State>, z: u64, lo: int, hi: int) -> nat
    decreases hi - lo,
{
    if hi <= lo {
        0
    } else {
        matching_count(history, z, lo, hi - 1) + if history[hi - 1].zobrist == z {
            1nat
        } else {
            0nat
        }
    }
}

/// How often the position has occurred: itself plus the earlier positions,
/// among those since the last capture or pawn move, with the same hash.
pub open spec fn repetitions(pos: Position, history: Seq<State>) -> nat {
    let n = if pos.halfmove_clock as int <= history.len() {
        pos.halfmove_clock as int
    } else {
        history.len() as int
    };
    1 + matching_count(history, pos.zobrist, history.len() - n, history.len() as int)
}

proof fn lemma_matching_count_bound(history: Seq<State>, z: u64, lo: int, hi: int)
    ensures
        matching_count(history, z, lo, hi) <= if hi <= lo {
            0
        } else {
            hi - lo
        },
    decreases hi - lo,
{
    if hi > lo {
        lemma_matching_count_bound(history, z, lo, hi - 1);
    }
}

impl Position {
    /// How often the position has occurred: itself, plus the earlier positions
    /// since the last capture or pawn move with the same hash.
    pub fn repetition_count(&self, history: &[State]) -> (r: usize)
        ensures
            r == repetitions(*self, history@),
            r >= 1,
    {
        let len = history.len();
        let n: usize = if (self.halfmove_clock as usize) <= len {
            self.halfmove_clock as usize
        } else {
            len
        };
        let mut count: usize = 0;
        let mut i: usize = len - n;
        while i < len
            invariant
                len == history@.len(),
                n <= len,
                n <= 65535,
                len - n <= i <= len,
                count == matching_count(history@, self.zobrist, len - n, i as int),
            decreases len - i,
        {
            proof {
                lemma_matching_count_bound(history@, self.zobrist, len - n, i as int);
            }
            if history[i].zobrist == self.zobrist {
                count = count + 1;
            }
            i = i + 1;
        }
        proof {
            lemma_matching_count_bound(history@, self.zobrist, len - n, len as int);
        }
        1 + count
    }

    /// Whether the position has occurred three times.
    pub fn is_threefold_repetition(&self, history: &[State]) -> (r: bool)
        ensures
            r == (repetitions(*self, history@) >= 3),
    {
        self.repetition_count(history) >= 3
    }
}

/// Square of the piece an en passant move captures.
fn en_passant_capture_square(mv: Move) -> (r: Square)
    ensures
        r.0 == (mv.from().0 / 8) * 8 + mv.to().0 % 8,
        mv.is_en_passant() ==> r == capture_square_of(mv),
        r.0 < 64,
{
    proof {
        lemma_move_fields_in_range(mv);
    }
    Square::from_file_rank(mv.to().file(), mv.from().rank())
}

/// Origin and destination of the rook in a castling move.
fn castling_rook_squares(mv: Move) -> (r: (Square, Square))
    requires
        mv.to().0 % 8 == 6 || mv.to().0 % 8 == 2,
    ensures
        r.0 == rook_from_of(mv),
        r.1 == rook_to_of(mv),
        r.0.0 < 64,
        r.1.0 < 64,
{
    proof {
        lemma_move_fields_in_range(mv);
    }
    let rank = mv.from().rank();
    if mv.to().file() == 6 {
        (Square::from_file_rank(7, rank), Square::from_file_rank(5, rank))
    } else {
        (Square::from_file_rank(0, rank), Square::from_file_rank(3, rank))
    }
}

/// Fields other than the board, its bitboards, the hash and the king squares agree.
pub open spec fn same_state(a: Position, b: Position) -> bool {
    &&& a.side_to_move == b.side_to_move
    &&& a.castling == b.castling
    &&& a.ep_square == b.ep_square
    &&& a.halfmove_clock == b.halfmove_clock
    &&& a.fullmove_number == b.fullmove_number
}

/// A change of one square of the board, with everything else in the hash
/// unchanged and no en passant square, changes the hash by the old and new
/// contributions of that square.
proof fn lemma_hash_one_square(old: Position, new: Position, s: int)
    requires
        0 <= s < 64,
        new.board@ == old.board@.update(s, new.board[s]),
        old.side_to_move == new.side_to_move,
        old.castling == new.castling,
        old.ep_square is None,
        new.ep_square is None,
    ensures
        position_hash(new) == position_hash(old) ^ (square_key(old.board@, s) ^ square_key(new.board@, s)),
{
    lemma_board_hash_update(old.board@, s, new.board[s], 64);
    let b = board_hash(old.board@, 64);
    let d = square_key(old.board@, s) ^ square_key(new.board@, s);
    lemma_xor_shift(b, side_hash(old.side_to_move), castling_key(old.castling), 0u64, d);
}

/// Two changes of single squares, with everything else in the hash unchanged
/// and no en passant square.
proof fn lemma_hash_two_squares(old: Position, new: Position, a: int, va: Option<Piece>, b: int)
    requires
        0 <= a < 64,
        0 <= b < 64,
        a != b,
        new.board@ == old.board@.update(a, va).update(b, new.board[b]),
        old.side_to_move == new.side_to_move,
        old.castling == new.castling,
        old.ep_square is None,
        new.ep_square is None,
    ensures
        position_hash(new) == (position_hash(old) ^ (square_key(old.board@, a) ^ square_key(
            old.board@.update(a, va),
            a,
        ))) ^ (square_key(old.board@, b) ^ square_key(new.board@, b)),
{
    let mid = old.board@.update(a, va);
    lemma_board_hash_update(old.board@, a, va, 64);
    lemma_board_hash_update(mid, b, new.board[b], 64);
    assert(mid.update(b, new.board[b]) =~= new.board@);
    assert(mid[b] == old.board[b]);
    let d1 = square_key(old.board@, a) ^ square_key(mid, a);
    let d2 = square_key(mid, b) ^ square_key(new.board@, b);
    let s = side_hash(old.side_to_move);
    let c = castling_key(old.castling);
    let b0 = board_hash(old.board@, 64);
    lemma_xor_shift(b0 ^ d1, s, c, 0u64, d2);
    lemma_xor_shift(b0, s, c, 0u64, d1);
}

impl Position {
    /// Moves a piece from one square to another.
    #[verifier::spinoff_prover]
    #[verifier::rlimit(50)]
    pub fn move_piece(&mut self, piece: Piece, from: Square, to: Square)
        requires
            from.0 < 64,
            to.0 < 64,
        ensures
            final(self).board@ == old(self).board@.update(from.0 as int, None).update(to.0 as int, Some(piece)),
            final(self).pieces@ == old(self).pieces@.update(
                piece.idx() as int,
                Bitboard((old(self).pieces[piece.idx() as int].0 & !(1u64 << from.0)) | (1u64 << to.0)),
            ),
            final(self).colors@ == old(self).colors@.update(
                piece.color().idx() as int,
                Bitboard((old(self).colors[piece.color().idx() as int].0 & !(1u64 << from.0)) | (1u64 << to.0)),
            ),
            final(self).occupied.0 == (old(self).occupied.0 & !(1u64 << from.0)) | (1u64 << to.0),
            final(self).zobrist == (old(self).zobrist ^ piece_square_key(piece.idx(), from.idx()))
                ^ piece_square_key(piece.idx(), to.idx()),
            final(self).king_sq@ == if piece.kind() == PieceKind::King {
                old(self).king_sq@.update(piece.color().idx() as int, to)
            } else {
                old(self).king_sq@
            },
            same_state(*old(self), *final(self)),
            old(self).board[from.0 as int] == Some(piece) && old(self).board[to.0 as int] is None
                && old(self).bits_agree() ==> final(self).bits_agree(),
            old(self).board[from.0 as int] == Some(piece) && old(self).board[to.0 as int] is None
                && old(self).ep_square is None && old(self).zobrist == position_hash(*old(self))
                ==> final(self).zobrist == position_hash(*final(self)),
            old(self).board[from.0 as int] == Some(piece) && old(self).board[to.0 as int] is None
                && old(self).kings_tracked() ==> final(self).kings_tracked(),
            old(self).squares_valid() ==> final(self).squares_valid(),
    {
        let ghost pre = *self;
        self.board[from.idx()] = None;
        self.board[to.idx()] = Some(piece);
        let pi = piece.idx();
        let mut b = self.pieces[pi];
        b.clear(from);
        b.set(to);
        self.pieces[pi] = b;
        let ci = piece.color().idx();
        let mut c = self.colors[ci];
        c.clear(from);
        c.set(to);
        self.colors[ci] = c;
        let mut o = self.occupied;
        o.clear(from);
        o.set(to);
        self.occupied = o;
        self.zobrist = self.zobrist ^ piece_square_key(pi, from.idx());
        self.zobrist = self.zobrist ^ piece_square_key(pi, to.idx());
        if piece.kind() == PieceKind::King {
            self.king_sq[ci] = to;
        }
        proof {
            let f = from.0 as int;
            let t = to.0 as int;
            assert(self.board@ =~= pre.board@.update(f, None).update(t, Some(piece)));
            assert(self.pieces@ =~= pre.pieces@.update(pi as int, b));
            assert(self.colors@ =~= pre.colors@.update(ci as int, c));
            if piece.kind() == PieceKind::King {
                assert(self.king_sq@ =~= pre.king_sq@.update(ci as int, to));
            } else {
                assert(self.king_sq@ =~= pre.king_sq@);
            }
            if pre.board[f] == Some(piece) && pre.board[t] is None {
                assert(f != t);
                if pre.bits_agree() {
                    assert forall|i: int, k: int| 0 <= i < 64 && 0 <= k < 12 implies #[trigger] self.pieces[k].has(i)
                        == (self.board[i] matches Some(p) && p.idx() == k) by {
                        assert(pre.pieces[k].has(i) == (pre.board[i] matches Some(p) && p.idx() == k));
                        assert(pre.pieces[k].has(f) == (pre.board[f] matches Some(p) && p.idx() == k));
                        assert(pre.pieces[k].has(t) == (pre.board[t] matches Some(p) && p.idx() == k));
                    }
                    assert forall|i: int, cc: int| 0 <= i < 64 && 0 <= cc < 2 implies #[trigger] self.colors[cc].has(i)
                        == (self.board[i] matches Some(p) && p.color().idx() == cc) by {
                        assert(pre.colors[cc].has(i) == (pre.board[i] matches Some(p) && p.color().idx() == cc));
                        assert(pre.colors[cc].has(f) == (pre.board[f] matches Some(p) && p.color().idx() == cc));
                        assert(pre.colors[cc].has(t) == (pre.board[t] matches Some(p) && p.color().idx() == cc));
                    }
                    assert forall|i: int| 0 <= i < 64 implies #[trigger] self.occupied.has(i) == self.board[i] is Some by {
                        assert(pre.occupied.has(i) == pre.board[i] is Some);
                    }
                }
                if pre.ep_square is None && pre.zobrist == position_hash(pre) {
                    lemma_hash_two_squares(pre, *self, f, None, t);
                    let k1 = piece_square_key(pi, from.idx());
                    let k2 = piece_square_key(pi, to.idx());
                    lemma_xor_facts(k1, 0u64, 0u64);
                    lemma_xor_facts(0u64, k2, 0u64);
                    lemma_xor_facts(k2, 0u64, 0u64);
                }
                if pre.kings_tracked() {
                    assert forall|i: int| 0 <= i < 64 implies (#[trigger] self.board[i] matches Some(p) ==> (
                        p.kind() == PieceKind::King ==> self.king_sq[p.color().idx() as int].0 == i)) by {
                        assert(pre.board[i] matches Some(p) ==> (p.kind() == PieceKind::King ==> pre.king_sq[p.color().idx() as int].0 == i));
                        assert(pre.board[f] matches Some(p) ==> (p.kind() == PieceKind::King ==> pre.king_sq[p.color().idx() as int].0 == f));
                    }
                }
            }
        }
    }

    /// Replaces the castling rights, keeping the hash in step.
    fn set_castling(&mut self, castling: CastlingRights)
        ensures
            final(self).castling == castling,
            final(self).zobrist == if old(self).castling != castling {
                (old(self).zobrist ^ castling_key(old(self).castling)) ^ castling_key(castling)
            } else {
                old(self).zobrist
            },
            final(self).board == old(self).board,
            final(self).pieces == old(self).pieces,
            final(self).colors == old(self).colors,
            final(self).occupied == old(self).occupied,
            final(self).king_sq == old(self).king_sq,
            final(self).side_to_move == old(self).side_to_move,
            final(self).ep_square == old(self).ep_square,
            final(self).halfmove_clock == old(self).halfmove_clock,
            final(self).fullmove_number == old(self).fullmove_number,
            old(self).zobrist == position_hash(*old(self)) ==> final(self).zobrist == position_hash(*final(self)),
    {
        if self.castling != castling {
            let ghost pre = *self;
            self.zobrist = self.zobrist ^ castling_key(self.castling);
            self.castling = castling;
            self.zobrist = self.zobrist ^ castling_key(self.castling);
            proof {
                assert(effective_ep(*self) == effective_ep(pre));
                lemma_xor_replace_castling(board_hash(pre.board@, 64), side_hash(pre.side_to_move),
                    castling_key(pre.castling), castling_key(castling), ep_hash(pre));
            }
        }
    }

    /// Replaces the side to move, keeping the hash in step.
    fn set_side_to_move(&mut self, side_to_move: Color)
        requires
            old(self).ep_square matches Some(sq) ==> sq.0 < 64,
        ensures
            final(self).side_to_move == side_to_move,
            final(self).zobrist == if old(self).side_to_move != side_to_move {
                ((old(self).zobrist ^ ep_hash(*old(self))) ^ side_to_move_key()) ^ ep_hash(*final(self))
            } else {
                old(self).zobrist
            },
            final(self).board == old(self).board,
            final(self).pieces == old(self).pieces,
            final(self).colors == old(self).colors,
            final(self).occupied == old(self).occupied,
            final(self).king_sq == old(self).king_sq,
            final(self).castling == old(self).castling,
            final(self).ep_square == old(self).ep_square,
            final(self).halfmove_clock == old(self).halfmove_clock,
            final(self).fullmove_number == old(self).fullmove_number,
            old(self).zobrist == position_hash(*old(self)) ==> final(self).zobrist == position_hash(*final(self)),
    {
        if self.side_to_move != side_to_move {
            let ghost pre = *self;
            match effective_ep_file(self) {
                Some(f) => {
                    self.zobrist = self.zobrist ^ en_passant_file_key(f);
                },
                None => {
                    proof {
                        lemma_xor_facts(self.zobrist, 0u64, 0u64);
                    }
                },
            }
            self.zobrist = self.zobrist ^ side_to_move_key();
            self.side_to_move = side_to_move;
            match effective_ep_file(self) {
                Some(f) => {
                    self.zobrist = self.zobrist ^ en_passant_file_key(f);
                },
                None => {
                    proof {
                        lemma_xor_facts(self.zobrist, 0u64, 0u64);
                    }
                },
            }
            proof {
                let k = side_to_move_key();
                lemma_xor_replace_side(board_hash(pre.board@, 64), side_hash(pre.side_to_move),
                    castling_key(pre.castling), ep_hash(pre), k, ep_hash(*self));
                assert(side_hash(side_to_move) == side_hash(pre.side_to_move) ^ k);
            }
        }
    }

    /// Replaces the en passant square, keeping the hash in step.
    fn set_ep_square(&mut self, ep_square: Option<Square>)
        requires
            old(self).ep_square matches Some(sq) ==> sq.0 < 64,
            ep_square matches Some(sq) ==> sq.0 < 64,
        ensures
            final(self).ep_square == ep_square,
            final(self).zobrist == if old(self).ep_square != ep_square {
                (old(self).zobrist ^ ep_hash(*old(self))) ^ ep_hash(*final(self))
            } else {
                old(self).zobrist
            },
            final(self).board == old(self).board,
            final(self).pieces == old(self).pieces,
            final(self).colors == old(self).colors,
            final(self).occupied == old(self).occupied,
            final(self).king_sq == old(self).king_sq,
            final(self).castling == old(self).castling,
            final(self).side_to_move == old(self).side_to_move,
            final(self).halfmove_clock == old(self).halfmove_clock,
            final(self).fullmove_number == old(self).fullmove_number,
            old(self).zobrist == position_hash(*old(self)) ==> final(self).zobrist == position_hash(*final(self)),
    {
        if self.ep_square != ep_square {
            let ghost pre = *self;
            match effective_ep_file(self) {
                Some(f) => {
                    self.zobrist = self.zobrist ^ en_passant_file_key(f);
                },
                None => {
                    proof {
                        lemma_xor_facts(self.zobrist, 0u64, 0u64);
                    }
                },
            }
            self.ep_square = ep_square;
            match effective_ep_file(self) {
                Some(f) => {
                    self.zobrist = self.zobrist ^ en_passant_file_key(f);
                },
                None => {
                    proof {
                        lemma_xor_facts(self.zobrist, 0u64, 0u64);
                    }
                },
            }
            proof {
                lemma_xor_replace_ep(board_hash(pre.board@, 64), side_hash(pre.side_to_move),
                    castling_key(pre.castling), ep_hash(pre), ep_hash(*self));
            }
        }
    }

    /// Drops the castling rights that a move gives up.
    fn update_castling_rights_after_move(
        &mut self,
        piece: Piece,
        from: Square,
        captured: Option<Piece>,
        capture_square: Square,
    )
        ensures
            final(self).castling.0 == ({
                let c0 = old(self).castling.0;
                let c1 = if piece.kind() == PieceKind::King {
                    c0 & !color_rights_mask(piece.color())
                } else {
                    c0
                };
                let c2 = if piece.kind() == PieceKind::Rook {
                    c1 & !rook_square_mask(from)
                } else {
                    c1
                };
                if captured is Some && captured.unwrap().kind() == PieceKind::Rook {
                    c2 & !rook_square_mask(capture_square)
                } else {
                    c2
                }
            }),
            final(self).board == old(self).board,
            final(self).pieces == old(self).pieces,
            final(self).colors == old(self).colors,
            final(self).occupied == old(self).occupied,
            final(self).king_sq == old(self).king_sq,
            final(self).side_to_move == old(self).side_to_move,
            final(self).ep_square == old(self).ep_square,
            final(self).halfmove_clock == old(self).halfmove_clock,
            final(self).fullmove_number == old(self).fullmove_number,
            old(self).zobrist == position_hash(*old(self)) ==> final(self).zobrist == position_hash(*final(self)),
    {
        if piece.kind() == PieceKind::King {
            self.remove_castling_rights_for_color(piece.color());
        }
        if piece.kind() == PieceKind::Rook {
            self.remove_castling_right_for_rook_square(from);
        }
        match captured {
            Some(c) => {
                if c.kind() == PieceKind::Rook {
                    self.remove_castling_right_for_rook_square(capture_square);
                }
            },
            None => {},
        }
    }

    fn remove_castling_rights_for_color(&mut self, color: Color)
        ensures
            final(self).castling.0 == old(self).castling.0 & !color_rights_mask(color),
            final(self).board == old(self).board,
            final(self).pieces == old(self).pieces,
            final(self).colors == old(self).colors,
            final(self).occupied == old(self).occupied,
            final(self).king_sq == old(self).king_sq,
            final(self).side_to_move == old(self).side_to_move,
            final(self).ep_square == old(self).ep_square,
            final(self).halfmove_clock == old(self).halfmove_clock,
            final(self).fullmove_number == old(self).fullmove_number,
            old(self).zobrist == position_hash(*old(self)) ==> final(self).zobrist == position_hash(*final(self)),
    {
        assert(1u8 | 2u8 == 3u8 && 4u8 | 8u8 == 12u8) by (bit_vector);
        let mut castling = self.castling;
        match color {
            Color::White => castling.remove(CastlingRights::WHITE_KINGSIDE | CastlingRights::WHITE_QUEENSIDE),
            Color::Black => castling.remove(CastlingRights::BLACK_KINGSIDE | CastlingRights::BLACK_QUEENSIDE),
        }
        self.set_castling(castling);
    }

    fn remove_castling_right_for_rook_square(&mut self, square: Square)
        ensures
            final(self).castling.0 == old(self).castling.0 & !rook_square_mask(square),
            final(self).board == old(self).board,
            final(self).pieces == old(self).pieces,
            final(self).colors == old(self).colors,
            final(self).occupied == old(self).occupied,
            final(self).king_sq == old(self).king_sq,
            final(self).side_to_move == old(self).side_to_move,
            final(self).ep_square == old(self).ep_square,
            final(self).halfmove_clock == old(self).halfmove_clock,
            final(self).fullmove_number == old(self).fullmove_number,
            old(self).zobrist == position_hash(*old(self)) ==> final(self).zobrist == position_hash(*final(self)),
    {
        let file = square.file();
        let rank = square.rank();
        let mask: u8 = if file == 0 && rank == 0 {
            CastlingRights::WHITE_QUEENSIDE
        } else if file == 7 && rank == 0 {
            CastlingRights::WHITE_KINGSIDE
        } else if file == 0 && rank == 7 {
            CastlingRights::BLACK_QUEENSIDE
        } else if file == 7 && rank == 7 {
            CastlingRights::BLACK_KINGSIDE
        } else {
            0
        };
        assert(mask == rook_square_mask(square));
        let mut castling = self.castling;
        castling.remove(mask);
        self.set_castling(castling);
    }

    /// Plays a move and returns what is needed to take it back.
    #[verifier::spinoff_prover]
    #[verifier::rlimit(100)]
    pub fn make_move(&mut self, mv: Move) -> (state: State)
        requires
            make_requires(*old(self), mv),
        ensures
            made(*old(self), mv, *final(self), state),
    {
        proof {
            lemma_move_fields_in_range(mv);
        }
        let ghost p0 = *self;
        let ghost fits = move_fits(p0, mv);
        let from = mv.from();
        let to = mv.to();
        let piece = self.piece_at(from).unwrap();
        let capture_square = if mv.is_en_passant() {
            en_passant_capture_square(mv)
        } else {
            to
        };
        let captured = if mv.is_capture() {
            self.piece_at(capture_square)
        } else {
            None
        };
        let state = State {
            castling: self.castling,
            ep_square: self.ep_square,
            halfmove_clock: self.halfmove_clock,
            captured,
            zobrist: self.zobrist,
        };

        self.set_ep_square(None);
        let ghost p1 = *self;
        assert(p1.bits_agree() == p0.bits_agree());
        assert(p1.kings_tracked() == p0.kings_tracked());

        match captured {
            Some(c) => {
                self.remove_piece(c, capture_square);
            },
            None => {},
        }
        let ghost p2 = *self;

        match mv.promotion() {
            Some(promoted) => {
                self.remove_piece(piece, from);
                let ghost p3a = *self;
                self.add_piece(Piece::from(piece.color(), promoted), to);
                proof {
                    if fits {
                        assert(p2.board[from.0 as int] == Some(piece));
                        assert(p3a.board[to.0 as int] is None);
                    }
                }
            },
            None => {
                self.move_piece(piece, from, to);
                let ghost p3a = *self;
                proof {
                    if fits {
                        assert(p2.board[from.0 as int] == Some(piece));
                        assert(p2.board[to.0 as int] is None);
                    }
                }
                if mv.is_castling() {
                    let (rook_from, rook_to) = castling_rook_squares(mv);
                    self.move_piece(Piece::from(piece.color(), PieceKind::Rook), rook_from, rook_to);
                    proof {
                        if fits {
                            assert(p3a.board[rook_from.0 as int] == Some(Piece::from(piece.color(), PieceKind::Rook)));
                            assert(p3a.board[rook_to.0 as int] is None);
                        }
                    }
                }
            },
        }
        let ghost p3 = *self;
        proof {
            assert(p3.board@ =~= board_after(p0, mv));
        }

        self.update_castling_rights_after_move(piece, from, captured, capture_square);

        let next_ep_square = if mv.is_double_pawn_push() {
            let ep_rank = (from.rank() + to.rank()) / 2;
            Some(Square::from_file_rank(from.file(), ep_rank))
        } else {
            None
        };

        if piece.kind() == PieceKind::Pawn || captured.is_some() {
            self.halfmove_clock = 0;
        } else {
            self.halfmove_clock = self.halfmove_clock + 1;
        }

        if self.side_to_move == Color::Black {
            self.fullmove_number = self.fullmove_number + 1;
        }
        let ghost p4 = *self;
        self.set_side_to_move(self.side_to_move.opposit());
        self.set_ep_square(next_ep_square);
        proof {
            assert(self.board@ =~= board_after(p0, mv));
            if mv.promotion() is None && piece.kind() == PieceKind::King {
                assert(self.king_sq@ =~= p0.king_sq@.update(piece.color().idx() as int, to));
            } else {
                assert(self.king_sq@ =~= p0.king_sq@);
            }
            assert(p4.zobrist == position_hash(p4) ==> self.zobrist == position_hash(*self));
        }
        state
    }

    /// Takes back a move made with `make_move`, given the state it returned.
    pub fn unmake_move(&mut self, mv: Move, state: State)
        requires
            unmake_requires(*old(self), mv),
        ensures
            unmade(*old(self), mv, state, *final(self)),
    {
        proof {
            lemma_move_fields_in_range(mv);
        }
        let ghost p0 = *self;
        let from = mv.from();
        let to = mv.to();

        self.side_to_move = self.side_to_move.opposit();
        if self.side_to_move == Color::Black {
            self.fullmove_number = self.fullmove_number - 1;
        }

        let moving_color = self.side_to_move;
        if mv.is_castling() {
            let (rook_from, rook_to) = castling_rook_squares(mv);
            self.move_piece(Piece::from(moving_color, PieceKind::Rook), rook_to, rook_from);
            self.move_piece(Piece::from(moving_color, PieceKind::King), to, from);
        } else if mv.promotion().is_some() {
            let promoted_piece = self.piece_at(to).unwrap();
            self.remove_piece(promoted_piece, to);
            self.add_piece(Piece::from(moving_color, PieceKind::Pawn), from);
        } else {
            let moved_piece = self.piece_at(to).unwrap();
            self.move_piece(moved_piece, to, from);
        }
        let ghost p1 = *self;
        proof {
            assert(p1.board@ =~= board_unmoved(p0, mv));
        }

        match state.captured {
            Some(captured) => {
                let capture_square = if mv.is_en_passant() {
                    en_passant_capture_square(mv)
                } else {
                    to
                };
                self.add_piece(captured, capture_square);
            },
            None => {},
        }

        self.castling = state.castling;
        self.ep_square = state.ep_square;
        self.halfmove_clock = state.halfmove_clock;
        self.zobrist = state.zobrist;
        proof {
            assert(self.board@ =~= board_undone(p0, mv, state));
            assert(self.king_sq@ =~= king_sq_undone(p0, mv, state));
        }
    }

    /// Puts a piece on a square.
    pub fn add_piece(&mut self, piece: Piece, sq: Square)
        requires
            sq.0 < 64,
        ensures
            final(self).board@ == old(self).board@.update(sq.0 as int, Some(piece)),
            final(self).pieces@ == old(self).pieces@.update(
                piece.idx() as int,
                Bitboard(old(self).pieces[piece.idx() as int].0 | (1u64 << sq.0)),
            ),
            final(self).colors@ == old(self).colors@.update(
                piece.color().idx() as int,
                Bitboard(old(self).colors[piece.color().idx() as int].0 | (1u64 << sq.0)),
            ),
            final(self).occupied.0 == old(self).occupied.0 | (1u64 << sq.0),
            final(self).zobrist == old(self).zobrist ^ piece_square_key(piece.idx(), sq.idx()),
            final(self).king_sq@ == if piece.kind() == PieceKind::King {
                old(self).king_sq@.update(piece.color().idx() as int, sq)
            } else {
                old(self).king_sq@
            },
            same_state(*old(self), *final(self)),
            old(self).board[sq.0 as int] is None && old(self).bits_agree() ==> final(self).bits_agree(),
            old(self).board[sq.0 as int] is None && old(self).ep_square is None && old(self).zobrist
                == position_hash(*old(self)) ==> final(self).zobrist == position_hash(*final(self)),
            old(self).board[sq.0 as int] is None && old(self).kings_tracked() && (piece.kind()
                != PieceKind::King || forall|i: int| 0 <= i < 64 ==> old(self).board[i] != Some(piece))
                ==> final(self).kings_tracked(),
            old(self).squares_valid() ==> final(self).squares_valid(),
    {
        let ghost pre = *self;
        self.board[sq.idx()] = Some(piece);
        let pi = piece.idx();
        let mut b = self.pieces[pi];
        b.set(sq);
        self.pieces[pi] = b;
        let ci = piece.color().idx();
        let mut c = self.colors[ci];
        c.set(sq);
        self.colors[ci] = c;
        let mut o = self.occupied;
        o.set(sq);
        self.occupied = o;
        self.zobrist = self.zobrist ^ piece_square_key(pi, sq.idx());
        if piece.kind() == PieceKind::King {
            self.king_sq[ci] = sq;
        }
        proof {
            assert(self.board@ =~= pre.board@.update(sq.0 as int, Some(piece)));
            assert(self.pieces@ =~= pre.pieces@.update(pi as int, b));
            assert(self.colors@ =~= pre.colors@.update(ci as int, c));
            if piece.kind() == PieceKind::King {
                assert(self.king_sq@ =~= pre.king_sq@.update(ci as int, sq));
            } else {
                assert(self.king_sq@ =~= pre.king_sq@);
            }
            if pre.board[sq.0 as int] is None && pre.bits_agree() {
                assert forall|i: int, k: int| 0 <= i < 64 && 0 <= k < 12 implies #[trigger] self.pieces[k].has(i)
                    == (self.board[i] matches Some(p) && p.idx() == k) by {
                    if k != pi {
                        assert(self.pieces[k] == pre.pieces[k]);
                        assert(pre.pieces[k].has(i) == (pre.board[i] matches Some(p) && p.idx() == k));
                    } else {
                        assert(pre.pieces[k].has(i) == (pre.board[i] matches Some(p) && p.idx() == k));
                    }
                }
                assert forall|i: int, cc: int| 0 <= i < 64 && 0 <= cc < 2 implies #[trigger] self.colors[cc].has(i)
                    == (self.board[i] matches Some(p) && p.color().idx() == cc) by {
                    assert(pre.colors[cc].has(i) == (pre.board[i] matches Some(p) && p.color().idx() == cc));
                }
                assert forall|i: int| 0 <= i < 64 implies #[trigger] self.occupied.has(i) == self.board[i] is Some by {
                    assert(pre.occupied.has(i) == pre.board[i] is Some);
                }
            }
            if pre.board[sq.0 as int] is None && pre.ep_square is None && pre.zobrist == position_hash(pre) {
                lemma_hash_one_square(pre, *self, sq.0 as int);
                lemma_xor_facts(0u64, piece_square_key(pi, sq.idx()), 0u64);
                lemma_xor_facts(piece_square_key(pi, sq.idx()), 0u64, 0u64);
            }
        }
    }

    /// Takes a piece off a square.
    pub fn remove_piece(&mut self, piece: Piece, sq: Square)
        requires
            sq.0 < 64,
        ensures
            final(self).board@ == old(self).board@.update(sq.0 as int, None),
            final(self).pieces@ == old(self).pieces@.update(
                piece.idx() as int,
                Bitboard(old(self).pieces[piece.idx() as int].0 & !(1u64 << sq.0)),
            ),
            final(self).colors@ == old(self).colors@.update(
                piece.color().idx() as int,
                Bitboard(old(self).colors[piece.color().idx() as int].0 & !(1u64 << sq.0)),
            ),
            final(self).occupied.0 == old(self).occupied.0 & !(1u64 << sq.0),
            final(self).zobrist == old(self).zobrist ^ piece_square_key(piece.idx(), sq.idx()),
            final(self).king_sq@ == old(self).king_sq@,
            same_state(*old(self), *final(self)),
            old(self).board[sq.0 as int] == Some(piece) && old(self).bits_agree() ==> final(self).bits_agree(),
            old(self).board[sq.0 as int] == Some(piece) && old(self).ep_square is None && old(self).zobrist
                == position_hash(*old(self)) ==> final(self).zobrist == position_hash(*final(self)),
            old(self).kings_tracked() ==> final(self).kings_tracked(),
            old(self).squares_valid() ==> final(self).squares_valid(),
    {
        let ghost pre = *self;
        self.board[sq.idx()] = None;
        let pi = piece.idx();
        let mut b = self.pieces[pi];
        b.clear(sq);
        self.pieces[pi] = b;
        let ci = piece.color().idx();
        let mut c = self.colors[ci];
        c.clear(sq);
        self.colors[ci] = c;
        let mut o = self.occupied;
        o.clear(sq);
        self.occupied = o;
        self.zobrist = self.zobrist ^ piece_square_key(pi, sq.idx());
        proof {
            assert(self.board@ =~= pre.board@.update(sq.0 as int, None));
            assert(self.pieces@ =~= pre.pieces@.update(pi as int, b));
            assert(self.colors@ =~= pre.colors@.update(ci as int, c));
            assert(self.king_sq@ =~= pre.king_sq@);
            if pre.board[sq.0 as int] == Some(piece) && pre.bits_agree() {
                assert forall|i: int, k: int| 0 <= i < 64 && 0 <= k < 12 implies #[trigger] self.pieces[k].has(i)
                    == (self.board[i] matches Some(p) && p.idx() == k) by {
                    assert(pre.pieces[k].has(i) == (pre.board[i] matches Some(p) && p.idx() == k));
                    assert(pre.pieces[k].has(sq.0 as int) == (pre.board[sq.0 as int] matches Some(p) && p.idx() == k));
                }
                assert forall|i: int, cc: int| 0 <= i < 64 && 0 <= cc < 2 implies #[trigger] self.colors[cc].has(i)
                    == (self.board[i] matches Some(p) && p.color().idx() == cc) by {
                    assert(pre.colors[cc].has(i) == (pre.board[i] matches Some(p) && p.color().idx() == cc));
                    assert(pre.colors[cc].has(sq.0 as int) == (pre.board[sq.0 as int] matches Some(p) && p.color().idx() == cc));
                }
                assert forall|i: int| 0 <= i < 64 implies #[trigger] self.occupied.has(i) == self.board[i] is Some by {
                    assert(pre.occupied.has(i) == pre.board[i] is Some);
                }
            }
            if pre.board[sq.0 as int] == Some(piece) && pre.ep_square is None && pre.zobrist == position_hash(pre) {
                lemma_hash_one_square(pre, *self, sq.0 as int);
                lemma_xor_facts(piece_square_key(pi, sq.idx()), 0u64, 0u64);
            }
            assert forall|i: int| 0 <= i < 64 && pre.kings_tracked() implies (#[trigger] self.board[i] matches Some(p) ==> (
                p.kind() == PieceKind::King ==> self.king_sq[p.color().idx() as int].0 == i)) by {
                assert(pre.board[i] matches Some(p) ==> (p.kind() == PieceKind::King ==> pre.king_sq[p.color().idx() as int].0 == i));
            }
        }
    }
}

} // verus!
