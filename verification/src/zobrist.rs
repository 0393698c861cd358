use vstd::prelude::*;
use crate::position::Position;
use crate::types::{Color, Piece, PieceKind, Square};

verus! {

/// The seed of the key generator.
pub const SEED: u64 = 0x9e37_79b9_7f4a_7c15;
/// Index of the first piece-square key.
pub const PIECE_SQUARE_OFFSET: u64 = 0;
/// Index of the side-to-move key.
pub const SIDE_TO_MOVE_OFFSET: u64 = 768;
/// Index of the first castling key.
pub const CASTLING_OFFSET: u64 = 769;
/// Index of the first en passant file key.
pub const EN_PASSANT_OFFSET: u64 = 785;

/// The SplitMix64 finalizer.
#[verifier::allow_in_spec]
pub fn splitmix64(value: u64) -> u64
    returns
        ({
            let a = value.wrapping_add(0x9e37_79b9_7f4a_7c15u64);
            let b = (a ^ (a >> 30u64)).wrapping_mul(0xbf58_476d_1ce4_e5b9u64);
            let c = (b ^ (b >> 27u64)).wrapping_mul(0x94d0_49bb_1331_11ebu64);
            c ^ (c >> 31u64)
        }),
{
    let a = value.wrapping_add(0x9e37_79b9_7f4a_7c15);
    let b = (a ^ (a >> 30)).wrapping_mul(0xbf58_476d_1ce4_e5b9);
    let c = (b ^ (b >> 27)).wrapping_mul(0x94d0_49bb_1331_11eb);
    c ^ (c >> 31)
}

/// The pseudo-random key with the given index.
#[verifier::allow_in_spec]
pub fn key(index: u64) -> u64
    returns
        splitmix64(SEED.wrapping_add(index)),
{
    splitmix64(SEED.wrapping_add(index))
}

/// Key for a piece (by index) standing on a square (by index).
#[verifier::allow_in_spec]
pub fn piece_square_key(piece_idx: usize, square_idx: usize) -> u64
    requires
        piece_idx < 12,
        square_idx < 64,
    returns
        key((PIECE_SQUARE_OFFSET + piece_idx * 64 + square_idx) as u64),
{
    key(PIECE_SQUARE_OFFSET + (piece_idx as u64 * 64) + square_idx as u64)
}

/// Key mixed in when black is to move.
#[verifier::allow_in_spec]
pub fn side_to_move_key() -> u64
    returns
        key(SIDE_TO_MOVE_OFFSET),
{
    key(SIDE_TO_MOVE_OFFSET)
}

/// Key for a set of castling rights; no rights contribute nothing.
#[verifier::allow_in_spec]
pub fn castling_key(castling: crate::position::CastlingRights) -> u64
    returns
        (if castling.0 == 0 {
            0u64
        } else {
            key((CASTLING_OFFSET + castling.0) as u64)
        }),
{
    if castling.0 == 0 {
        0
    } else {
        key(CASTLING_OFFSET + castling.0 as u64)
    }
}

/// Key for an en passant file.
#[verifier::allow_in_spec]
pub fn en_passant_file_key(file: u8) -> u64
    returns
        key((EN_PASSANT_OFFSET + file) as u64),
{
    key(EN_PASSANT_OFFSET + file as u64)
}

/// Contribution of one square of a board to the hash.
pub open spec fn square_key(board: Seq<Option<Piece>>, i: int) -> u64 {
    match board[i] {
        Some(p) => piece_square_key(p.idx(), i as usize),
        None => 0u64,
    }
}

/// Exclusive or of the contributions of the first `n` squares.
pub open spec fn board_hash(board: Seq<Option<Piece>>, n: nat) -> u64
    decreases n,
{
    if n == 0 {
        0u64
    } else {
        board_hash(board, (n - 1) as nat) ^ square_key(board, n - 1)
    }
}

/// The file of the en passant square when a pawn of the side to move stands
/// beside the pawn that just advanced two squares, ready to capture it.
pub open spec fn effective_ep(pos: Position) -> Option<u8> {
    match pos.ep_square {
        None => None,
        Some(ep) => {
            let rank = ep.0 / 8;
            let file = ep.0 % 8;
            let pawn_rank: Option<int> = match pos.side_to_move {
                Color::White => if rank >= 1 {
                    Some(rank - 1)
                } else {
                    None
                },
                Color::Black => if rank + 1 < 8 {
                    Some(rank + 1)
                } else {
                    None
                },
            };
            match pawn_rank {
                None => None,
                Some(pr) => {
                    let pawn = Piece::from(pos.side_to_move, PieceKind::Pawn);
                    if (file >= 1 && pos.board@[pr * 8 + file - 1] == Some(pawn)) || (file + 1 < 8
                        && pos.board@[pr * 8 + file + 1] == Some(pawn)) {
                        Some(file)
                    } else {
                        None
                    }
                },
            }
        },
    }
}

/// The hash of a position: pieces on squares, side to move, castling rights
/// and a capturable en passant file.
pub open spec fn position_hash(pos: Position) -> u64 {
    board_hash(pos.board@, 64) ^ side_hash(pos.side_to_move) ^ castling_key(pos.castling) ^ ep_hash(pos)
}

/// Contribution of the side to move to the hash.
pub open spec fn side_hash(side: Color) -> u64 {
    if side == Color::Black {
        side_to_move_key()
    } else {
        0u64
    }
}

/// Contribution of the en passant state to the hash.
pub open spec fn ep_hash(pos: Position) -> u64 {
    match effective_ep(pos) {
        Some(f) => en_passant_file_key(f),
        None => 0u64,
    }
}

/// Moving one term of an exclusive or to the end.
pub proof fn lemma_xor_shift(b: u64, s: u64, c: u64, e: u64, d: u64)
    by (bit_vector)
    ensures
        (((b ^ d) ^ s) ^ c) ^ e == (((b ^ s) ^ c) ^ e) ^ d,
        (((b ^ s) ^ c) ^ e) ^ 0u64 == ((b ^ s) ^ c) ^ e,
        0u64 ^ d == d,
        d ^ 0u64 == d,
{
}

/// Replacing the castling term.
pub proof fn lemma_xor_replace_castling(b: u64, s: u64, c1: u64, c2: u64, e: u64)
    by (bit_vector)
    ensures
        ((((b ^ s) ^ c1) ^ e) ^ c1) ^ c2 == ((b ^ s) ^ c2) ^ e,
{
}

/// Replacing the side term and the en passant term together.
pub proof fn lemma_xor_replace_side(b: u64, s1: u64, c: u64, e1: u64, k: u64, e2: u64)
    by (bit_vector)
    ensures
        (((((b ^ s1) ^ c) ^ e1) ^ e1) ^ k) ^ e2 == ((b ^ (s1 ^ k)) ^ c) ^ e2,
        0u64 ^ k == k,
        k ^ k == 0u64,
{
}

/// Replacing the en passant term.
pub proof fn lemma_xor_replace_ep(b: u64, s: u64, c: u64, e1: u64, e2: u64)
    by (bit_vector)
    ensures
        ((((b ^ s) ^ c) ^ e1) ^ e1) ^ e2 == ((b ^ s) ^ c) ^ e2,
{
}

/// Exclusive or is associative and commutative, has zero as identity and undoes itself.
pub proof fn lemma_xor_facts(a: u64, b: u64, c: u64)
    by (bit_vector)
    ensures
        (a ^ b) ^ c == a ^ (b ^ c),
        a ^ b == b ^ a,
        a ^ 0u64 == a,
        a ^ a == 0u64,
        0u64 ^ a == a,
{
}

/// Changing one square changes the board hash by the old and the new
/// contribution of that square.
pub proof fn lemma_board_hash_update(board: Seq<Option<Piece>>, s: int, v: Option<Piece>, n: nat)
    requires
        0 <= s < board.len(),
        n <= board.len(),
    ensures
        board_hash(board.update(s, v), n) == if s < n {
            board_hash(board, n) ^ (square_key(board, s) ^ square_key(board.update(s, v), s))
        } else {
            board_hash(board, n)
        },
    decreases n,
{
    let b2 = board.update(s, v);
    if n > 0 {
        lemma_board_hash_update(board, s, v, (n - 1) as nat);
        let h = board_hash(board, (n - 1) as nat);
        let d = square_key(board, s) ^ square_key(b2, s);
        if n - 1 == s {
            lemma_xor_facts(h, square_key(board, s), square_key(board, s) ^ square_key(b2, s));
            lemma_xor_facts(square_key(board, s), square_key(board, s), square_key(b2, s));
            lemma_xor_facts(square_key(b2, s), 0u64, 0u64);
            lemma_xor_facts(0u64, square_key(b2, s), 0u64);
        } else if s < n - 1 {
            assert(square_key(b2, n - 1) == square_key(board, n - 1));
            lemma_xor_facts(h, d, square_key(board, n - 1));
            lemma_xor_facts(d, square_key(board, n - 1), 0u64);
            lemma_xor_facts(h, square_key(board, n - 1), d);
        } else {
            assert(square_key(b2, n - 1) == square_key(board, n - 1));
        }
    }
}

/// The board hash of an empty board is zero.
pub proof fn lemma_board_hash_empty(board: Seq<Option<Piece>>, n: nat)
    requires
        n <= board.len(),
        forall|i: int| 0 <= i < board.len() ==> board[i] is None,
    ensures
        board_hash(board, n) == 0,
    decreases n,
{
    if n > 0 {
        lemma_board_hash_empty(board, (n - 1) as nat);
        lemma_xor_facts(0u64, 0u64, 0u64);
    }
}

/// Recomputes the hash of a position from scratch.
pub fn hash_position(pos: &Position) -> (r: u64)
    requires
        pos.ep_square matches Some(sq) ==> sq.0 < 64,
    ensures
        r == position_hash(*pos),
{
    let mut hash: u64 = 0;
    let mut i: usize = 0;
    while i < 64
        invariant
            i <= 64,
            hash == board_hash(pos.board@, i as nat),
        decreases 64 - i,
    {
        match pos.board[i] {
            Some(piece) => {
                hash = hash ^ piece_square_key(piece.idx(), i);
            },
            None => {
                proof {
                    lemma_xor_facts(hash, 0u64, 0u64);
                }
            },
        }
        i = i + 1;
    }
    if pos.side_to_move == Color::Black {
        hash = hash ^ side_to_move_key();
    } else {
        proof {
            lemma_xor_facts(hash, 0u64, 0u64);
        }
    }
    hash = hash ^ castling_key(pos.castling);
    match effective_ep_file(pos) {
        Some(file) => {
            hash = hash ^ en_passant_file_key(file);
        },
        None => {
            proof {
                lemma_xor_facts(hash, 0u64, 0u64);
            }
        },
    }
    hash
}

/// The en passant file that counts for the hash, if any.
pub fn effective_ep_file(pos: &Position) -> (r: Option<u8>)
    requires
        pos.ep_square matches Some(sq) ==> sq.0 < 64,
    ensures
        r == effective_ep(*pos),
        r matches Some(f) ==> f < 8,
{
    let ep_square = match pos.ep_square {
        Some(sq) => sq,
        None => return None,
    };
    let pawn_rank: u8 = match pos.side_to_move {
        Color::White => match ep_square.rank().checked_sub(1) {
            Some(r) => r,
            None => return None,
        },
        Color::Black => {
            let rank = ep_square.rank() + 1;
            if rank < 8 {
                rank
            } else {
                return None;
            }
        },
    };
    let pawn = Piece::from(pos.side_to_move, PieceKind::Pawn);
    let file = ep_square.file();
    if file >= 1 {
        let sq = Square::from_file_rank(file - 1, pawn_rank);
        if pos.piece_at(sq) == Some(pawn) {
            return Some(file);
        }
    }
    if file + 1 < 8 {
        let sq = Square::from_file_rank(file + 1, pawn_rank);
        if pos.piece_at(sq) == Some(pawn) {
            return Some(file);
        }
    }
    None
}

} // verus!
