use vstd::prelude::*;
use crate::fen::{
    fen_spec, fen_fields, fen_position_facts, fen_board, fen_castling, castling_scan, kings_error, piece_letter, place_letters,
    lemma_board_scan_letters, lemma_board_scan_slash, lemma_board_scan_empty_rank, lemma_piece_count_one,
};
use crate::types::Piece;
use crate::movegen::{generate_legal, legal_moves, playable};
use crate::mv::{Move, move_text};
use crate::position::{
    FenError, Position, State, made, make_requires, repetitions, after_move, state_before,
    lemma_after_move,
};
use crate::text::{eq_text, text_chars, is_space, spaced, words, lemma_words_spaced, all_digits, digits_value, uint_value};

verus! {

/// The standard starting position.
pub const STARTPOS_FEN: &'static str = "rnbqkbnr/pppppppp/8/8/8/8/PPPPPPPP/RNBQKBNR w KQkq - 0 1";

/// A game: the current position and the states of the moves that led to it,
/// oldest first.
#[derive(Debug, Clone)]
pub struct Game {
    pub pos: Position,
    pub history: Vec<State>,
}

/// Why a move cannot be played.
#[derive(Debug, Clone, Copy, PartialEq, Eq, Structural)]
pub enum GameError {
    IllegalMove,
}

/// The index of the first move in `ms` whose text is `t`, if any.
pub open spec fn first_with_text(ms: Seq<Move>, t: Seq<char>) -> Option<int> {
    if exists|i: int| 0 <= i < ms.len() && move_text(#[trigger] ms[i]) == t {
        Some(
            choose|i: int|
                0 <= i < ms.len() && move_text(#[trigger] ms[i]) == t && forall|j: int|
                    0 <= j < i ==> move_text(#[trigger] ms[j]) != t,
        )
    } else {
        None
    }
}

/// The starting position text is a valid FEN.
proof fn lemma_startpos_parses()
    ensures
        fen_spec(STARTPOS_FEN@) is Ok,
{
    reveal_strlit("rnbqkbnr/pppppppp/8/8/8/8/PPPPPPPP/RNBQKBNR w KQkq - 0 1");
    reveal_strlit("w");
    reveal_strlit("-");
    let r0 = seq!['r', 'n', 'b', 'q', 'k', 'b', 'n', 'r'];
    let r1 = seq!['p', 'p', 'p', 'p', 'p', 'p', 'p', 'p'];
    let r6 = seq!['P', 'P', 'P', 'P', 'P', 'P', 'P', 'P'];
    let r7 = seq!['R', 'N', 'B', 'Q', 'K', 'B', 'N', 'R'];
    let sl = seq!['/'];
    let e = seq!['8'];
    let a13 = r7;
    let a12 = sl + a13;
    let a11 = r6 + a12;
    let a10 = sl + a11;
    let a9 = e + a10;
    let a8 = sl + a9;
    let a7 = e + a8;
    let a6 = sl + a7;
    let a5 = e + a6;
    let a4 = sl + a5;
    let a3 = e + a4;
    let a2 = sl + a3;
    let a1 = r1 + a2;
    let a0 = sl + a1;
    let w0 = r0 + a0;
    let w1 = seq!['w'];
    let w2 = seq!['K', 'Q', 'k', 'q'];
    let w3 = seq!['-'];
    let w4 = seq!['0'];
    let w5 = seq!['1'];
    let ws = seq![w0, w1, w2, w3, w4, w5];
    assert(w0.len() == 43);
    assert(spaced(ws) =~= w0 + seq![' '] + (w1 + seq![' '] + (w2 + seq![' '] + (w3 + seq![' '] + (w4 + seq![' '] + w5))))) by {
        let ws1 = ws.drop_first();
        let ws2 = ws1.drop_first();
        let ws3 = ws2.drop_first();
        let ws4 = ws3.drop_first();
        let ws5 = ws4.drop_first();
        assert(ws5 =~= seq![w5]);
        assert(spaced(ws5) == w5);
        assert(spaced(ws4) == w4 + seq![' '] + w5);
        assert(spaced(ws3) == w3 + seq![' '] + (w4 + seq![' '] + w5));
        assert(spaced(ws2) == w2 + seq![' '] + (w3 + seq![' '] + (w4 + seq![' '] + w5)));
        assert(spaced(ws1) == w1 + seq![' '] + (w2 + seq![' '] + (w3 + seq![' '] + (w4 + seq![' '] + w5))));
    }
    assert(STARTPOS_FEN@ =~= spaced(ws));
    assert forall|k: int| 0 <= k < ws.len() implies #[trigger] ws[k].len() > 0 by {}
    assert forall|k: int, i: int| 0 <= k < ws.len() && 0 <= i < ws[k].len() implies !is_space(#[trigger] ws[k][i]) by {
        if k == 0 {
            assert(w0[i] == 'r' || w0[i] == 'n' || w0[i] == 'b' || w0[i] == 'q' || w0[i] == 'k' || w0[i] == 'p'
                || w0[i] == 'P' || w0[i] == 'R' || w0[i] == 'N' || w0[i] == 'B' || w0[i] == 'Q' || w0[i] == 'K'
                || w0[i] == '/' || w0[i] == '8');
        }
    }
    lemma_words_spaced(ws);
    let t = words(STARTPOS_FEN@);
    assert(t == ws);
    // The board field.
    let empty = Seq::new(64, |i: int| None::<Piece>);
    assert forall|i: int| 0 <= i < 8 implies (#[trigger] piece_letter(r0[i])) is Some by {}
    assert forall|i: int| 0 <= i < 8 implies (#[trigger] piece_letter(r1[i])) is Some by {}
    assert forall|i: int| 0 <= i < 8 implies (#[trigger] piece_letter(r6[i])) is Some by {}
    assert forall|i: int| 0 <= i < 8 implies (#[trigger] piece_letter(r7[i])) is Some by {}
    let p0 = place_letters(empty, 0, 0, r0);
    let p1 = place_letters(p0, 1, 0, r1);
    let p6 = place_letters(p1, 6, 0, r6);
    let p7 = place_letters(p6, 7, 0, r7);
    lemma_board_scan_letters(r0, a0, 0, 0, empty);
    lemma_board_scan_slash(a1, 0, p0);
    lemma_board_scan_letters(r1, a2, 1, 0, p0);
    lemma_board_scan_slash(a3, 1, p1);
    lemma_board_scan_empty_rank(a4, 2, p1);
    lemma_board_scan_slash(a5, 2, p1);
    lemma_board_scan_empty_rank(a6, 3, p1);
    lemma_board_scan_slash(a7, 3, p1);
    lemma_board_scan_empty_rank(a8, 4, p1);
    lemma_board_scan_slash(a9, 4, p1);
    lemma_board_scan_empty_rank(a10, 5, p1);
    lemma_board_scan_slash(a11, 5, p1);
    lemma_board_scan_letters(r6, a12, 6, 0, p1);
    lemma_board_scan_slash(a13, 6, p6);
    assert(r7 + Seq::<char>::empty() =~= r7);
    lemma_board_scan_letters(r7, Seq::<char>::empty(), 7, 0, p6);
    assert(fen_board(w0) == Some(p7));
    // Exactly one king of each color.
    lemma_startpos_kings(empty, r0, r1, r6, r7);
    // The other fields.
    assert(w1 =~= "w"@);
    assert(w2 != "-"@);
    assert(0u8 & 1u8 == 0u8 && 0u8 | 1u8 == 1u8) by (bit_vector);
    assert(1u8 & 2u8 == 0u8 && 1u8 | 2u8 == 3u8) by (bit_vector);
    assert(3u8 & 4u8 == 0u8 && 3u8 | 4u8 == 7u8) by (bit_vector);
    assert(7u8 & 8u8 == 0u8 && 7u8 | 8u8 == 15u8) by (bit_vector);
    assert(w2.drop_first() =~= seq!['Q', 'k', 'q']);
    assert(w2.drop_first().drop_first() =~= seq!['k', 'q']);
    assert(w2.drop_first().drop_first().drop_first() =~= seq!['q']);
    assert(w2.drop_first().drop_first().drop_first().drop_first() =~= Seq::<char>::empty());
    assert(seq!['q'][0] == 'q' && seq!['q'].drop_first() =~= Seq::<char>::empty());
    assert(seq!['k', 'q'][0] == 'k' && seq!['k', 'q'].drop_first() =~= seq!['q']);
    assert(seq!['Q', 'k', 'q'][0] == 'Q' && seq!['Q', 'k', 'q'].drop_first() =~= seq!['k', 'q']);
    assert(castling_scan(Seq::<char>::empty(), 15u8) == Some(15u8));
    assert(castling_scan(seq!['q'], 7u8) == Some(15u8));
    assert(castling_scan(seq!['k', 'q'], 3) == Some(15u8));
    assert(castling_scan(seq!['Q', 'k', 'q'], 1) == Some(15u8));
    assert(fen_castling(w2) == Some(15u8));
    assert(w3 =~= "-"@);
    assert(all_digits(w4) && digits_value(w4) == 0) by {
        assert(w4.len() == 1 && w4[0] == '0' && w4.last() == '0');
        assert(w4.drop_last() =~= Seq::<char>::empty());
        assert(digits_value(Seq::<char>::empty()) == 0);
        assert(('0' as nat - '0' as nat) as nat == 0);
    }
    assert(all_digits(w5) && digits_value(w5) == 1) by {
        assert(w5.len() == 1 && w5[0] == '1' && w5.last() == '1');
        assert(w5.drop_last() =~= Seq::<char>::empty());
        assert(digits_value(Seq::<char>::empty()) == 0);
        assert(('1' as nat - '0' as nat) as nat == 1);
    }
    assert(uint_value(w4, 65535) == Some(0nat));
    assert(uint_value(w5, 65535) == Some(1nat));
}

/// The start board has one king of each color.
proof fn lemma_startpos_kings(empty: Seq<Option<Piece>>, r0: Seq<char>, r1: Seq<char>, r6: Seq<char>, r7: Seq<char>)
    requires
        empty == Seq::new(64, |i: int| None::<Piece>),
        r0 == seq!['r', 'n', 'b', 'q', 'k', 'b', 'n', 'r'],
        r1 == seq!['p', 'p', 'p', 'p', 'p', 'p', 'p', 'p'],
        r6 == seq!['P', 'P', 'P', 'P', 'P', 'P', 'P', 'P'],
        r7 == seq!['R', 'N', 'B', 'Q', 'K', 'B', 'N', 'R'],
    ensures
        kings_error(place_letters(place_letters(place_letters(place_letters(empty, 0, 0, r0), 1, 0, r1), 6, 0, r6), 7, 0, r7)) is None,
{
    let b = place_letters(place_letters(place_letters(place_letters(empty, 0, 0, r0), 1, 0, r1), 6, 0, r6), 7, 0, r7);
    reveal_with_fuel(place_letters, 9);
    assert(b[4] == Some(Piece::WhiteKing));
    assert(b[60] == Some(Piece::BlackKing));
    assert forall|i: int| 0 <= i < 64 && i != 4 implies b[i] != Some(Piece::WhiteKing) by {}
    assert forall|i: int| 0 <= i < 64 && i != 60 implies b[i] != Some(Piece::BlackKing) by {}
    lemma_piece_count_one(b, Piece::WhiteKing, 64, 4);
    lemma_piece_count_one(b, Piece::BlackKing, 64, 60);
}

impl Game {
    /// A game from the standard starting position, without history.
    pub fn startpos() -> (r: Self)
        ensures
            r.pos.wf(),
            r.pos.kings_tracked(),
            r.history@.len() == 0,
            fen_spec(STARTPOS_FEN@) == Ok::<_, FenError>(fen_fields(r.pos)),
    {
        proof {
            lemma_startpos_parses();
        }
        Self::from_fen(STARTPOS_FEN).expect("STARTPOS_FEN must be valid")
    }

    /// A game from a FEN position, without history.
    pub fn from_fen(fen: &str) -> (r: Result<Self, FenError>)
        ensures
            match r {
                Ok(game) => {
                    &&& fen_spec(fen@) == Ok::<_, FenError>(fen_fields(game.pos))
                    &&& game.pos.wf()
                    &&& game.pos.kings_tracked()
                    &&& fen_position_facts(game.pos)
                    &&& game.history@.len() == 0
                },
                Err(e) => fen_spec(fen@) is Err && fen_spec(fen@)->Err_0 == e,
            },
    {
        match Position::from_fen(fen) {
            Ok(pos) => Ok(Game { pos, history: Vec::new() }),
            Err(e) => Err(e),
        }
    }

    /// The legal moves of the current position, in generation order.
    pub fn legal_moves(&mut self) -> (r: Vec<Move>)
        requires
            playable(old(self).pos),
        ensures
            final(self).pos == old(self).pos,
            final(self).history@ == old(self).history@,
            r@ == legal_moves(old(self).pos),
    {
        let mut moves: Vec<Move> = Vec::new();
        generate_legal(&mut self.pos, &mut moves);
        moves
    }

    /// Plays a move and records its state in the history.
    pub fn apply_move(&mut self, mv: Move)
        requires
            make_requires(old(self).pos, mv),
        ensures
            final(self).history@.len() == old(self).history@.len() + 1,
            final(self).history@.drop_last() == old(self).history@,
            made(old(self).pos, mv, final(self).pos, final(self).history@.last()),
    {
        let state = self.pos.make_move(mv);
        self.history.push(state);
    }

    /// Plays the first legal move whose long algebraic text is `text`; the
    /// game is unchanged when no legal move has that text.
    pub fn apply_uci_move(&mut self, text: &str) -> (r: Result<Move, GameError>)
        requires
            playable(old(self).pos),
        ensures
            match r {
                Ok(m) => {
                    &&& first_with_text(legal_moves(old(self).pos), text@) matches Some(i)
                        && legal_moves(old(self).pos)[i] == m
                    &&& final(self).history@.len() == old(self).history@.len() + 1
                    &&& final(self).history@.drop_last() == old(self).history@
                    &&& made(old(self).pos, m, final(self).pos, final(self).history@.last())
                    &&& crate::movegen::sound(final(self).pos)
                    &&& final(self).pos == after_move(old(self).pos, m)
                    &&& final(self).history@.last() == state_before(old(self).pos, m)
                },
                Err(e) => {
                    &&& e == GameError::IllegalMove
                    &&& first_with_text(legal_moves(old(self).pos), text@) is None
                    &&& final(self).pos == old(self).pos
                    &&& final(self).history@ == old(self).history@
                },
            },
    {
        let moves = self.legal_moves();
        match find_uci(&moves, text) {
            Some(i) => {
                let mv = moves[i];
                proof {
                    crate::movegen::lemma_legal_good(self.pos);
                    assert(crate::movegen::good_move(self.pos, moves@[i as int]));
                }
                let ghost before = self.pos;
                self.apply_move(mv);
                proof {
                    crate::movegen::lemma_sound_after(before, mv, self.pos, self.history@.last());
                    lemma_after_move(before, mv, self.pos, self.history@.last());
                }
                Ok(mv)
            },
            None => Err(GameError::IllegalMove),
        }
    }

    /// How often the current position has occurred in the game.
    pub fn repetition_count(&self) -> (r: usize)
        ensures
            r == repetitions(self.pos, self.history@),
    {
        self.pos.repetition_count(self.history.as_slice())
    }

    /// Whether the current position has occurred three times.
    pub fn is_threefold_repetition(&self) -> (r: bool)
        ensures
            r == (repetitions(self.pos, self.history@) >= 3),
    {
        self.pos.is_threefold_repetition(self.history.as_slice())
    }
}

/// The index of the first move whose long algebraic text is `text`.
fn find_uci(moves: &Vec<Move>, text: &str) -> (r: Option<usize>)
    ensures
        r matches Some(i) ==> i < moves@.len() && first_with_text(moves@, text@) == Some(i as int),
        r is None ==> first_with_text(moves@, text@) is None,
{
    let n = moves.len();
    let mut i: usize = 0;
    while i < n
        invariant
            i <= n,
            n == moves@.len(),
            forall|j: int| 0 <= j < i ==> move_text(#[trigger] moves@[j]) != text@,
        decreases n - i,
    {
        let uci = moves[i].to_uci();
        let chars = text_chars(uci.as_str());
        if eq_text(&chars, text) {
            proof {
                lemma_first_with_text(moves@, text@, i as int);
            }
            return Some(i);
        }
        i = i + 1;
    }
    proof {
        assert(!exists|j: int| 0 <= j < moves@.len() && move_text(#[trigger] moves@[j]) == text@);
    }
    None
}

/// The first match found by a scan from the front is the first match.
proof fn lemma_first_with_text(ms: Seq<Move>, t: Seq<char>, i: int)
    requires
        0 <= i < ms.len(),
        move_text(ms[i]) == t,
        forall|j: int| 0 <= j < i ==> move_text(#[trigger] ms[j]) != t,
    ensures
        first_with_text(ms, t) == Some(i),
{
    let k = choose|k: int|
        0 <= k < ms.len() && move_text(#[trigger] ms[k]) == t && forall|j: int|
            0 <= j < k ==> move_text(#[trigger] ms[j]) != t;
    assert(0 <= k < ms.len() && move_text(ms[k]) == t && forall|j: int|
        0 <= j < k ==> move_text(#[trigger] ms[j]) != t);
    if k < i {
        assert(move_text(ms[k]) != t);
    } else if k > i {
        assert(move_text(ms[i]) != t);
    }
}

} // verus!
