use vstd::prelude::*;
use crate::position::{CastlingRights, FenError, Position, same_state};
use crate::text::{eq_text, parse_uint, split_words, text_chars, uint_value, words};
use crate::types::{Color, Piece, PieceKind, Square, bits_below, square_from_text};
use crate::bits::{bit, lemma_bits_ext};
use crate::zobrist::{hash_position, position_hash};

verus! {

/// The piece a FEN letter stands for.
pub open spec fn piece_letter(ch: char) -> Option<Piece> {
    if ch == 'P' {
        Some(Piece::WhitePawn)
    } else if ch == 'N' {
        Some(Piece::WhiteKnight)
    } else if ch == 'B' {
        Some(Piece::WhiteBishop)
    } else if ch == 'R' {
        Some(Piece::WhiteRook)
    } else if ch == 'Q' {
        Some(Piece::WhiteQueen)
    } else if ch == 'K' {
        Some(Piece::WhiteKing)
    } else if ch == 'p' {
        Some(Piece::BlackPawn)
    } else if ch == 'n' {
        Some(Piece::BlackKnight)
    } else if ch == 'b' {
        Some(Piece::BlackBishop)
    } else if ch == 'r' {
        Some(Piece::BlackRook)
    } else if ch == 'q' {
        Some(Piece::BlackQueen)
    } else if ch == 'k' {
        Some(Piece::BlackKing)
    } else {
        None
    }
}

/// Reads the rest `cs` of a FEN board field, ranks from the eighth down, each
/// rank from file a to file h: a digit 1-8 skips that many squares, a letter
/// places a piece, `/` ends a rank that is complete. `fen_rank` counts the
/// ranks begun, `file` the squares of the current rank filled.
pub open spec fn board_scan(cs: Seq<char>, fen_rank: int, file: int, acc: Seq<Option<Piece>>) -> Option<
    Seq<Option<Piece>>,
>
    decreases cs.len(),
{
    if cs.len() == 0 {
        if file == 8 && fen_rank == 7 {
            Some(acc)
        } else {
            None
        }
    } else {
        let ch = cs[0];
        let rest = cs.drop_first();
        if ch == '/' {
            if file != 8 || fen_rank + 1 >= 8 {
                None
            } else {
                board_scan(rest, fen_rank + 1, 0, acc)
            }
        } else if '0' <= ch <= '9' {
            let n = ch as int - '0' as int;
            if n == 0 || n > 8 || file + n > 8 {
                None
            } else {
                board_scan(rest, fen_rank, file + n, acc)
            }
        } else if file >= 8 {
            None
        } else {
            match piece_letter(ch) {
                None => None,
                Some(p) => board_scan(rest, fen_rank, file + 1, acc.update((7 - fen_rank) * 8 + file, Some(p))),
            }
        }
    }
}

/// The board a FEN board field describes.
pub open spec fn fen_board(field: Seq<char>) -> Option<Seq<Option<Piece>>> {
    board_scan(field, 0, 0, Seq::new(64, |i: int| None::<Piece>))
}

/// The side named by a FEN side-to-move field.
pub open spec fn fen_side(field: Seq<char>) -> Option<Color> {
    if field == "w"@ {
        Some(Color::White)
    } else if field == "b"@ {
        Some(Color::Black)
    } else {
        None
    }
}

/// The flag a castling letter stands for, or zero.
pub open spec fn castling_letter(ch: char) -> u8 {
    if ch == 'K' {
        1
    } else if ch == 'Q' {
        2
    } else if ch == 'k' {
        4
    } else if ch == 'q' {
        8
    } else {
        0
    }
}

/// Reads castling letters, each at most once.
pub open spec fn castling_scan(cs: Seq<char>, rights: u8) -> Option<u8>
    decreases cs.len(),
{
    if cs.len() == 0 {
        Some(rights)
    } else {
        let mask = castling_letter(cs[0]);
        if mask == 0 || rights & mask != 0 {
            None
        } else {
            castling_scan(cs.drop_first(), rights | mask)
        }
    }
}

/// The castling rights a FEN castling field names.
pub open spec fn fen_castling(field: Seq<char>) -> Option<u8> {
    if field == "-"@ {
        Some(0)
    } else {
        castling_scan(field, 0)
    }
}

/// The en passant square a FEN field names: none for `-`, otherwise a square
/// on the sixth rank when white is to move, on the third when black is.
pub open spec fn fen_ep(field: Seq<char>, side: Color) -> Option<Option<Square>> {
    if field == "-"@ {
        Some(None)
    } else {
        match square_from_text(field) {
            Some(sq) => if sq.0 / 8 == (if side == Color::White {
                5int
            } else {
                2int
            }) {
                Some(Some(sq))
            } else {
                None
            },
            None => None,
        }
    }
}

/// The board with the pieces that `letters` name placed on rank `7 - fen_rank`
/// from file `file` on.
pub open spec fn place_letters(acc: Seq<Option<Piece>>, fen_rank: int, file: int, letters: Seq<char>) -> Seq<Option<Piece>>
    decreases letters.len(),
{
    if letters.len() == 0 {
        acc
    } else {
        place_letters(
            acc.update((7 - fen_rank) * 8 + file, piece_letter(letters[0])),
            fen_rank,
            file + 1,
            letters.drop_first(),
        )
    }
}

/// Piece letters fill consecutive squares of the rank being read.
pub proof fn lemma_board_scan_letters(letters: Seq<char>, rest: Seq<char>, fen_rank: int, file: int, acc: Seq<Option<Piece>>)
    requires
        0 <= file,
        file + letters.len() <= 8,
        forall|i: int| 0 <= i < letters.len() ==> (#[trigger] piece_letter(letters[i])) is Some,
    ensures
        board_scan(letters + rest, fen_rank, file, acc) == board_scan(
            rest,
            fen_rank,
            file + letters.len(),
            place_letters(acc, fen_rank, file, letters),
        ),
    decreases letters.len(),
{
    if letters.len() == 0 {
        assert(letters + rest =~= rest);
    } else {
        let ch = letters[0];
        assert(piece_letter(ch) is Some);
        assert((letters + rest)[0] == ch);
        assert((letters + rest).drop_first() =~= letters.drop_first() + rest);
        assert(ch != '/' && !('0' <= ch <= '9'));
        let l1 = letters.drop_first();
        assert forall|i: int| 0 <= i < l1.len() implies (#[trigger] piece_letter(l1[i])) is Some by {
            assert(l1[i] == letters[i + 1]);
        }
        lemma_board_scan_letters(l1, rest, fen_rank, file + 1, acc.update((7 - fen_rank) * 8 + file, piece_letter(ch)));
    }
}

/// A digit eight skips a whole empty rank.
pub proof fn lemma_board_scan_empty_rank(rest: Seq<char>, fen_rank: int, acc: Seq<Option<Piece>>)
    ensures
        board_scan(seq!['8'] + rest, fen_rank, 0, acc) == board_scan(rest, fen_rank, 8, acc),
{
    assert((seq!['8'] + rest)[0] == '8');
    assert((seq!['8'] + rest).drop_first() =~= rest);
}

/// A slash after a complete rank starts the next one.
pub proof fn lemma_board_scan_slash(rest: Seq<char>, fen_rank: int, acc: Seq<Option<Piece>>)
    requires
        fen_rank + 1 < 8,
    ensures
        board_scan(seq!['/'] + rest, fen_rank, 8, acc) == board_scan(rest, fen_rank + 1, 0, acc),
{
    assert((seq!['/'] + rest)[0] == '/');
    assert((seq!['/'] + rest).drop_first() =~= rest);
}

/// A board holding a piece on exactly one of its first `n` squares counts it once.
pub proof fn lemma_piece_count_one(board: Seq<Option<Piece>>, p: Piece, n: nat, at: int)
    requires
        0 <= at < n,
        board[at] == Some(p),
        forall|i: int| 0 <= i < n && i != at ==> board[i] != Some(p),
    ensures
        piece_count(board, p, n) == 1,
    decreases n,
{
    if n - 1 > at {
        lemma_piece_count_one(board, p, (n - 1) as nat, at);
    } else {
        lemma_piece_count_none(board, p, (n - 1) as nat);
    }
}

proof fn lemma_piece_count_none(board: Seq<Option<Piece>>, p: Piece, n: nat)
    requires
        forall|i: int| 0 <= i < n ==> board[i] != Some(p),
    ensures
        piece_count(board, p, n) == 0,
    decreases n,
{
    if n > 0 {
        lemma_piece_count_none(board, p, (n - 1) as nat);
    }
}

/// Number of squares among the first `n` that hold the piece.
pub open spec fn piece_count(board: Seq<Option<Piece>>, p: Piece, n: nat) -> nat
    decreases n,
{
    if n == 0 {
        0
    } else {
        piece_count(board, p, (n - 1) as nat) + if board[n - 1] == Some(p) {
            1nat
        } else {
            0nat
        }
    }
}

/// The check on the number of kings: exactly one of each color.
pub open spec fn kings_error(board: Seq<Option<Piece>>) -> Option<FenError> {
    let w = piece_count(board, Piece::WhiteKing, 64);
    let b = piece_count(board, Piece::BlackKing, 64);
    if w == 0 {
        Some(FenError::MissingKing(Color::White))
    } else if w > 1 {
        Some(FenError::TooManyKings(Color::White))
    } else if b == 0 {
        Some(FenError::MissingKing(Color::Black))
    } else if b > 1 {
        Some(FenError::TooManyKings(Color::Black))
    } else {
        None
    }
}

/// The content of a FEN string: board, side to move, castling rights,
/// en passant square, halfmove clock and move number; or the first error.
pub open spec fn fen_spec(fen: Seq<char>) -> Result<
    (Seq<Option<Piece>>, Color, u8, Option<Square>, u16, u16),
    FenError,
> {
    let t = words(fen);
    if t.len() != 6 {
        Err(FenError::WrongFieldCount)
    } else {
        match fen_board(t[0]) {
            None => Err(FenError::InvalidBoard),
            Some(b) => match fen_side(t[1]) {
                None => Err(FenError::InvalidSideToMove),
                Some(side) => match fen_castling(t[2]) {
                    None => Err(FenError::InvalidCastling),
                    Some(c) => match fen_ep(t[3], side) {
                        None => Err(FenError::InvalidEnPassant),
                        Some(ep) => match uint_value(t[4], 65535) {
                            None => Err(FenError::InvalidHalfmoveClock),
                            Some(h) => match uint_value(t[5], 65535) {
                                None => Err(FenError::InvalidFullmoveNumber),
                                Some(f) => if f == 0 {
                                    Err(FenError::InvalidFullmoveNumber)
                                } else {
                                    match kings_error(b) {
                                        Some(e) => Err(e),
                                        None => Ok((b, side, c, ep, h as u16, f as u16)),
                                    }
                                },
                            },
                        },
                    },
                },
            },
        }
    }
}

/// A piece counted on the first `n` squares stands on one of them.
proof fn lemma_piece_count_some(board: Seq<Option<Piece>>, p: Piece, n: nat) -> (at: int)
    requires
        piece_count(board, p, n) >= 1,
    ensures
        0 <= at < n,
        board[at] == Some(p),
    decreases n,
{
    if board[n - 1] == Some(p) {
        (n - 1) as int
    } else {
        lemma_piece_count_some(board, p, (n - 1) as nat)
    }
}

/// The king square a consistent position records for a color whose king is
/// on the board.
proof fn lemma_king_square_fixed(p: Position, q: Position, k: Piece, c: int)
    requires
        p.board@ == q.board@,
        p.kings_tracked(),
        q.kings_tracked(),
        k.kind() == PieceKind::King,
        k.color().idx() == c,
        piece_count(p.board@, k, 64) >= 1,
    ensures
        p.king_sq[c] == q.king_sq[c],
{
    let at = lemma_piece_count_some(p.board@, k, 64);
    assert(p.board[at] == Some(k));
    assert(q.board[at] == Some(k));
}

/// What a position read from FEN holds beyond consistency: exactly one
/// king of each color, standing on its color's king square; a move number
/// of at least one; and an en passant square, if any, on the rank a double
/// pawn push of the other side passes.
pub open spec fn fen_position_facts(p: Position) -> bool {
    &&& piece_count(p.board@, Piece::WhiteKing, 64) == 1
    &&& piece_count(p.board@, Piece::BlackKing, 64) == 1
    &&& p.board[p.king_sq[0].0 as int] == Some(Piece::WhiteKing)
    &&& p.board[p.king_sq[1].0 as int] == Some(Piece::BlackKing)
    &&& p.fullmove_number >= 1
    &&& p.ep_square matches Some(e) ==> e.0 / 8 == (if p.side_to_move == Color::White {
        5int
    } else {
        2int
    })
}

/// A position that holds what a FEN string gives, with its kings tracked,
/// has the facts every position read from FEN has.
pub proof fn lemma_fen_position_facts(fen: Seq<char>, p: Position)
    requires
        fen_spec(fen) == Ok::<_, FenError>(fen_fields(p)),
        p.kings_tracked(),
    ensures
        fen_position_facts(p),
{
    let b = p.board@;
    assert(kings_error(b) is None);
    let w = lemma_piece_count_some(b, Piece::WhiteKing, 64);
    let k = lemma_piece_count_some(b, Piece::BlackKing, 64);
    assert(p.board[w] == Some(Piece::WhiteKing));
    assert(p.board[k] == Some(Piece::BlackKing));
    let t = words(fen);
    assert(fen_ep(t[3], fen_side(t[1])->0) == Some(p.ep_square));
}

/// A FEN string fixes the whole position: two consistent positions with
/// tracked kings that both hold what the string gives are equal.
pub proof fn lemma_fen_position_unique(fen: Seq<char>, p: Position, q: Position)
    requires
        fen_spec(fen) == Ok::<_, FenError>(fen_fields(p)),
        fen_spec(fen) == Ok::<_, FenError>(fen_fields(q)),
        p.wf(),
        q.wf(),
        p.kings_tracked(),
        q.kings_tracked(),
    ensures
        p == q,
{
    let b = p.board@;
    assert(kings_error(b) is None);
    assert(p.board@ == q.board@);
    assert(p.board =~= q.board);
    lemma_king_square_fixed(p, q, Piece::WhiteKing, 0);
    lemma_king_square_fixed(p, q, Piece::BlackKing, 1);
    assert(p.king_sq =~= q.king_sq);
    assert forall|k: int| 0 <= k < 12 implies #[trigger] p.pieces[k] == q.pieces[k] by {
        assert forall|i: u64| i < 64 implies #[trigger] bit(p.pieces[k].0, i) == bit(q.pieces[k].0, i) by {
            assert(p.pieces[k].has(i as int) == q.pieces[k].has(i as int));
        }
        lemma_bits_ext(p.pieces[k].0, q.pieces[k].0);
    }
    assert(p.pieces =~= q.pieces);
    assert forall|c: int| 0 <= c < 2 implies #[trigger] p.colors[c] == q.colors[c] by {
        assert forall|i: u64| i < 64 implies #[trigger] bit(p.colors[c].0, i) == bit(q.colors[c].0, i) by {
            assert(p.colors[c].has(i as int) == q.colors[c].has(i as int));
        }
        lemma_bits_ext(p.colors[c].0, q.colors[c].0);
    }
    assert(p.colors =~= q.colors);
    assert forall|i: u64| i < 64 implies #[trigger] bit(p.occupied.0, i) == bit(q.occupied.0, i) by {
        assert(p.occupied.has(i as int) == q.occupied.has(i as int));
    }
    lemma_bits_ext(p.occupied.0, q.occupied.0);
    assert(p.castling == q.castling);
    assert(position_hash(p) == position_hash(q));
}

/// The parts of a position that a FEN string gives.
pub open spec fn fen_fields(pos: Position) -> (Seq<Option<Piece>>, Color, u8, Option<Square>, u16, u16) {
    (pos.board@, pos.side_to_move, pos.castling.0, pos.ep_square, pos.halfmove_clock, pos.fullmove_number)
}

/// Each king on the board stands where its color's king square points, and
/// that square holds a king of that color.
pub open spec fn kings_pointed(pos: Position) -> bool {
    forall|i: int|
        0 <= i < 64 ==> (#[trigger] pos.board[i] matches Some(p) ==> (p.kind() == PieceKind::King ==> pos.board[
            pos.king_sq[p.color().idx() as int].0 as int] == Some(p)))
}

fn piece_from_fen(ch: char) -> (r: Option<Piece>)
    ensures
        r == piece_letter(ch),
{
    match ch {
        'P' => Some(Piece::WhitePawn),
        'N' => Some(Piece::WhiteKnight),
        'B' => Some(Piece::WhiteBishop),
        'R' => Some(Piece::WhiteRook),
        'Q' => Some(Piece::WhiteQueen),
        'K' => Some(Piece::WhiteKing),
        'p' => Some(Piece::BlackPawn),
        'n' => Some(Piece::BlackKnight),
        'b' => Some(Piece::BlackBishop),
        'r' => Some(Piece::BlackRook),
        'q' => Some(Piece::BlackQueen),
        'k' => Some(Piece::BlackKing),
        _ => None,
    }
}

fn parse_board(field: &Vec<char>, pos: &mut Position) -> (r: Result<(), FenError>)
    requires
        old(pos).wf(),
        old(pos).ep_square is None,
        forall|i: int| 0 <= i < 64 ==> old(pos).board[i] is None,
    ensures
        r is Ok <==> fen_board(field@) is Some,
        r is Err ==> r == Err::<(), FenError>(FenError::InvalidBoard),
        r is Ok ==> {
            &&& final(pos).board@ == fen_board(field@).unwrap()
            &&& final(pos).wf()
            &&& kings_pointed(*final(pos))
            &&& same_state(*old(pos), *final(pos))
        },
{
    let ghost empty = Seq::new(64, |i: int| None::<Piece>);
    assert(pos.board@ =~= empty);
    assert(field@.skip(0) =~= field@);
    let len = field.len();
    let mut fen_rank: u8 = 0;
    let mut file: u8 = 0;
    let mut i: usize = 0;
    while i < len
        invariant
            len == field@.len(),
            i <= len,
            fen_rank <= 7,
            file <= 8,
            fen_board(field@) == board_scan(field@.skip(i as int), fen_rank as int, file as int, pos.board@),
            forall|s: int|
                0 <= s < 64 && (7 - s / 8 > fen_rank || (7 - s / 8 == fen_rank && s % 8 >= file))
                    ==> #[trigger] pos.board[s] is None,
            pos.wf(),
            pos.ep_square is None,
            kings_pointed(*pos),
            same_state(*old(pos), *pos),
        decreases len - i,
    {
        let ch = field[i];
        let ghost rest = field@.skip(i as int);
        assert(rest[0] == ch);
        assert(rest.drop_first() =~= field@.skip(i + 1));
        if ch == '/' {
            if file != 8 {
                return Err(FenError::InvalidBoard);
            }
            if fen_rank + 1 >= 8 {
                return Err(FenError::InvalidBoard);
            }
            fen_rank = fen_rank + 1;
            file = 0;
        } else if '0' <= ch && ch <= '9' {
            let n = (ch as u32 - '0' as u32) as u8;
            if n == 0 || n > 8 {
                return Err(FenError::InvalidBoard);
            }
            if file + n > 8 {
                return Err(FenError::InvalidBoard);
            }
            file = file + n;
        } else {
            if file >= 8 {
                return Err(FenError::InvalidBoard);
            }
            match piece_from_fen(ch) {
                None => {
                    return Err(FenError::InvalidBoard);
                },
                Some(piece) => {
                    let sq = Square::from_file_rank(file, 7 - fen_rank);
                    let ghost pre = *pos;
                    assert(pos.board[sq.0 as int] is None);
                    pos.add_piece(piece, sq);
                    proof {
                        assert forall|j: int| 0 <= j < 64 implies (#[trigger] pos.board[j] matches Some(p) ==> (
                            p.kind() == PieceKind::King ==> pos.board[pos.king_sq[p.color().idx() as int].0 as int]
                            == Some(p))) by {
                            if j != sq.0 {
                                assert(pre.board[j] == pos.board[j]);
                            }
                        }
                    }
                    file = file + 1;
                },
            }
        }
        i = i + 1;
    }
    assert(field@.skip(len as int) =~= seq![]);
    if file == 8 && fen_rank == 7 {
        Ok(())
    } else {
        Err(FenError::InvalidBoard)
    }
}

fn parse_side_to_move(field: &Vec<char>) -> (r: Result<Color, FenError>)
    ensures
        match fen_side(field@) {
            Some(c) => r == Ok::<Color, FenError>(c),
            None => r == Err::<Color, FenError>(FenError::InvalidSideToMove),
        },
{
    if eq_text(field, "w") {
        Ok(Color::White)
    } else if eq_text(field, "b") {
        Ok(Color::Black)
    } else {
        Err(FenError::InvalidSideToMove)
    }
}

fn parse_castling(field: &Vec<char>) -> (r: Result<CastlingRights, FenError>)
    ensures
        match fen_castling(field@) {
            Some(c) => r == Ok::<CastlingRights, FenError>(CastlingRights(c)),
            None => r == Err::<CastlingRights, FenError>(FenError::InvalidCastling),
        },
{
    if eq_text(field, "-") {
        return Ok(CastlingRights(0));
    }
    let mut rights = CastlingRights(0);
    let len = field.len();
    let mut i: usize = 0;
    assert(field@.skip(0) =~= field@);
    while i < len
        invariant
            len == field@.len(),
            i <= len,
            field@ != "-"@,
            fen_castling(field@) == castling_scan(field@.skip(i as int), rights.0),
        decreases len - i,
    {
        let ch = field[i];
        let ghost rest = field@.skip(i as int);
        assert(rest[0] == ch);
        assert(rest.drop_first() =~= field@.skip(i + 1));
        let mask: u8 = match ch {
            'K' => CastlingRights::WHITE_KINGSIDE,
            'Q' => CastlingRights::WHITE_QUEENSIDE,
            'k' => CastlingRights::BLACK_KINGSIDE,
            'q' => CastlingRights::BLACK_QUEENSIDE,
            _ => {
                return Err(FenError::InvalidCastling);
            },
        };
        if rights.has(mask) {
            return Err(FenError::InvalidCastling);
        }
        rights.insert(mask);
        i = i + 1;
    }
    assert(field@.skip(len as int) =~= seq![]);
    Ok(rights)
}

fn parse_ep_square(field: &Vec<char>, side_to_move: Color) -> (r: Result<Option<Square>, FenError>)
    ensures
        match fen_ep(field@, side_to_move) {
            Some(ep) => r == Ok::<Option<Square>, FenError>(ep),
            None => r == Err::<Option<Square>, FenError>(FenError::InvalidEnPassant),
        },
        r matches Ok(Some(sq)) ==> sq.0 < 64,
{
    if eq_text(field, "-") {
        return Ok(None);
    }
    if field.len() != 2 {
        return Err(FenError::InvalidEnPassant);
    }
    let f = field[0];
    let k = field[1];
    if !('a' <= f && f <= 'h') {
        return Err(FenError::InvalidEnPassant);
    }
    if !('1' <= k && k <= '8') {
        return Err(FenError::InvalidEnPassant);
    }
    let file = (f as u32 - 'a' as u32) as u8;
    let rank = (k as u32 - '1' as u32) as u8;
    let expected_rank: u8 = match side_to_move {
        Color::White => 5,
        Color::Black => 2,
    };
    if rank != expected_rank {
        return Err(FenError::InvalidEnPassant);
    }
    Ok(Some(Square::from_file_rank(file, rank)))
}

proof fn lemma_count_bits(pos: Position, p: Piece, n: nat)
    requires
        pos.bits_agree(),
        n <= 64,
    ensures
        bits_below(pos.pieces[p.idx() as int].0, n) == piece_count(pos.board@, p, n),
    decreases n,
{
    if n > 0 {
        lemma_count_bits(pos, p, (n - 1) as nat);
        assert(pos.pieces[p.idx() as int].has(n - 1) == (pos.board[n - 1] matches Some(q) && q.idx()
            == p.idx()));
    }
}

proof fn lemma_count_two(board: Seq<Option<Piece>>, p: Piece, s: int, t: int, n: nat)
    requires
        0 <= s < n,
        0 <= t < n,
        s != t,
        n <= board.len(),
        board[s] == Some(p),
        board[t] == Some(p),
    ensures
        piece_count(board, p, n) >= 2,
    decreases n,
{
    if s == n - 1 {
        lemma_count_one(board, p, t, (n - 1) as nat);
    } else if t == n - 1 {
        lemma_count_one(board, p, s, (n - 1) as nat);
    } else {
        lemma_count_two(board, p, s, t, (n - 1) as nat);
    }
}

proof fn lemma_count_one(board: Seq<Option<Piece>>, p: Piece, s: int, n: nat)
    requires
        0 <= s < n,
        n <= board.len(),
        board[s] == Some(p),
    ensures
        piece_count(board, p, n) >= 1,
    decreases n,
{
    if s < n - 1 {
        lemma_count_one(board, p, s, (n - 1) as nat);
    }
}

fn validate_kings(pos: &Position) -> (r: Result<(), FenError>)
    requires
        pos.bits_agree(),
    ensures
        match kings_error(pos.board@) {
            Some(e) => r == Err::<(), FenError>(e),
            None => r is Ok,
        },
{
    proof {
        lemma_count_bits(*pos, Piece::WhiteKing, 64);
        lemma_count_bits(*pos, Piece::BlackKing, 64);
    }
    let w = pos.pieces_of(Color::White, PieceKind::King).count();
    if w == 0 {
        return Err(FenError::MissingKing(Color::White));
    } else if w > 1 {
        return Err(FenError::TooManyKings(Color::White));
    }
    let b = pos.pieces_of(Color::Black, PieceKind::King).count();
    if b == 0 {
        return Err(FenError::MissingKing(Color::Black));
    } else if b > 1 {
        return Err(FenError::TooManyKings(Color::Black));
    }
    Ok(())
}

/// With one king of each color, pointing at the kings is tracking them.
proof fn lemma_pointed_is_tracked(pos: Position)
    requires
        kings_pointed(pos),
        kings_error(pos.board@) is None,
        pos.squares_valid(),
    ensures
        pos.kings_tracked(),
{
    assert forall|i: int| 0 <= i < 64 implies (#[trigger] pos.board[i] matches Some(p) ==> (p.kind()
        == PieceKind::King ==> pos.king_sq[p.color().idx() as int].0 == i)) by {
        if pos.board[i] is Some && pos.board[i].unwrap().kind() == PieceKind::King {
            let p = pos.board[i].unwrap();
            let k = pos.king_sq[p.color().idx() as int].0 as int;
            assert(pos.board[k] == Some(p));
            if k != i {
                lemma_count_two(pos.board@, p, i, k, 64);
            }
        }
    }
}

impl Position {
    /// Reads a position from Forsyth-Edwards Notation.
    pub fn from_fen(fen: &str) -> (r: Result<Self, FenError>)
        ensures
            match r {
                Ok(pos) => {
                    &&& fen_spec(fen@) == Ok::<_, FenError>(fen_fields(pos))
                    &&& pos.wf()
                    &&& pos.kings_tracked()
                    &&& fen_position_facts(pos)
                },
                Err(e) => fen_spec(fen@) == Err::<(Seq<Option<Piece>>, Color, u8, Option<Square>, u16, u16), FenError>(e),
            },
    {
        let chars = text_chars(fen);
        let fields = split_words(&chars);
        let ghost t = words(fen@);
        assert(fields@.map_values(|w: Vec<char>| w@) == t);
        if fields.len() != 6 {
            return Err(FenError::WrongFieldCount);
        }
        assert(fields[0]@ == t[0]);
        assert(fields[1]@ == t[1]);
        assert(fields[2]@ == t[2]);
        assert(fields[3]@ == t[3]);
        assert(fields[4]@ == t[4]);
        assert(fields[5]@ == t[5]);
        let mut pos = Position::empty();
        match parse_board(&fields[0], &mut pos) {
            Ok(()) => {},
            Err(e) => {
                return Err(e);
            },
        }
        let side = match parse_side_to_move(&fields[1]) {
            Ok(c) => c,
            Err(e) => {
                return Err(e);
            },
        };
        let castling = match parse_castling(&fields[2]) {
            Ok(c) => c,
            Err(e) => {
                return Err(e);
            },
        };
        let ep = match parse_ep_square(&fields[3], side) {
            Ok(ep) => ep,
            Err(e) => {
                return Err(e);
            },
        };
        let halfmove = match parse_uint(&fields[4], 65535) {
            Some(v) => v as u16,
            None => {
                return Err(FenError::InvalidHalfmoveClock);
            },
        };
        let fullmove = match parse_uint(&fields[5], 65535) {
            Some(v) => v as u16,
            None => {
                return Err(FenError::InvalidFullmoveNumber);
            },
        };
        if fullmove == 0 {
            return Err(FenError::InvalidFullmoveNumber);
        }
        pos.side_to_move = side;
        pos.castling = castling;
        pos.ep_square = ep;
        pos.halfmove_clock = halfmove;
        pos.fullmove_number = fullmove;
        match validate_kings(&pos) {
            Ok(()) => {},
            Err(e) => {
                return Err(e);
            },
        }
        pos.zobrist = hash_position(&pos);
        proof {
            lemma_pointed_is_tracked(pos);
            lemma_fen_position_facts(fen@, pos);
        }
        Ok(pos)
    }
}

impl core::str::FromStr for Position {
    type Err = FenError;

    fn from_str(fen: &str) -> (r: Result<Self, Self::Err>)
        ensures
            match r {
                Ok(pos) => {
                    &&& fen_spec(fen@) == Ok::<_, FenError>(fen_fields(pos))
                    &&& pos.wf()
                    &&& pos.kings_tracked()
                    &&& fen_position_facts(pos)
                },
                Err(e) => fen_spec(fen@) == Err::<(Seq<Option<Piece>>, Color, u8, Option<Square>, u16, u16), FenError>(e),
            },
    {
        Position::from_fen(fen)
    }
}

} // verus!
