use vstd::prelude::*;
use crate::types::{PieceKind, Square, square_text};
use crate::text::push_char;

verus! {

/// A move packed into 32 bits: bits 0-5 the origin square, bits 6-11 the
/// destination, bits 12-14 the promotion code (0 none, 1 knight, 2 bishop,
/// 3 rook, 4 queen), bit 15 capture, bit 16 double pawn push, bit 17 en
/// passant, bit 18 castling.
#[derive(Debug, Clone, Copy, PartialEq, Eq, Structural)]
pub struct Move(pub u32);

/// The promotion code of a piece kind; kinds a pawn cannot become get 0.
pub open spec fn promotion_code(kind: PieceKind) -> u32 {
    match kind {
        PieceKind::Knight => 1,
        PieceKind::Bishop => 2,
        PieceKind::Rook => 3,
        PieceKind::Queen => 4,
        PieceKind::Pawn | PieceKind::King => 0,
    }
}

/// The letter that names a promotion piece in move text.
pub open spec fn promotion_letter(kind: PieceKind) -> char {
    match kind {
        PieceKind::Knight => 'n',
        PieceKind::Bishop => 'b',
        PieceKind::Rook => 'r',
        _ => 'q',
    }
}

/// Long algebraic text of a move: origin, destination, promotion letter.
pub open spec fn move_text(mv: Move) -> Seq<char> {
    let base = square_text(mv.from()) + square_text(mv.to());
    match mv.promotion() {
        Some(kind) => base.push(promotion_letter(kind)),
        None => base,
    }
}

/// The fields of a move that carry its meaning, other than its squares.
pub open spec fn same_flags_except_capture(a: Move, b: Move) -> bool {
    &&& a.is_double_pawn_push() == b.is_double_pawn_push()
    &&& a.is_en_passant() == b.is_en_passant()
    &&& a.is_castling() == b.is_castling()
}

impl Move {
    /// A plain move between two squares.
    pub fn new(from: Square, to: Square) -> (r: Self)
        ensures
            r.0 == (from.0 as u32) | ((to.0 as u32) << 6u32),
            from.0 < 64 && to.0 < 64 ==> {
                &&& r.from() == from
                &&& r.to() == to
                &&& r.promotion() is None
                &&& !r.is_capture()
                &&& !r.is_double_pawn_push()
                &&& !r.is_en_passant()
                &&& !r.is_castling()
            },
    {
        let f = from.0 as u32;
        let t = to.0 as u32;
        let r = Move(f | (t << 6));
        proof {
            if f < 64 && t < 64 {
                let x = r.0;
                assert(x == f | (t << 6u32) && f < 64 && t < 64 ==> {
                    &&& x & 63u32 == f
                    &&& (x & 0xFC0u32) >> 6u32 == t
                    &&& (x & 0x7000u32) >> 12u32 == 0
                    &&& x & 0x8000u32 == 0
                    &&& x & 0x10000u32 == 0
                    &&& x & 0x20000u32 == 0
                    &&& x & 0x40000u32 == 0
                }) by (bit_vector);
            }
        }
        r
    }

    /// A promotion move between two squares.
    pub fn with_promotion(from: Square, to: Square, promoted: PieceKind) -> (r: Self)
        ensures
            r.0 == ((from.0 as u32) | ((to.0 as u32) << 6u32)) | (promotion_code(promoted) << 12u32),
            from.0 < 64 && to.0 < 64 ==> {
                &&& r.from() == from
                &&& r.to() == to
                &&& r.promotion() == (if promotion_code(promoted) == 0 {
                    None
                } else {
                    Some(promoted)
                })
                &&& !r.is_capture()
                &&& !r.is_double_pawn_push()
                &&& !r.is_en_passant()
                &&& !r.is_castling()
            },
    {
        let code: u32 = match promoted {
            PieceKind::Knight => 1,
            PieceKind::Bishop => 2,
            PieceKind::Rook => 3,
            PieceKind::Queen => 4,
            PieceKind::Pawn | PieceKind::King => 0,
        };
        let base = Self::new(from, to);
        let r = Move(base.0 | (code << 12));
        proof {
            let f = from.0 as u32;
            let t = to.0 as u32;
            let x = r.0;
            if f < 64 && t < 64 {
                assert(x == (f | (t << 6u32)) | (code << 12u32) && f < 64 && t < 64 && code <= 4 ==> {
                    &&& x & 63u32 == f
                    &&& (x & 0xFC0u32) >> 6u32 == t
                    &&& (x & 0x7000u32) >> 12u32 == code
                    &&& x & 0x8000u32 == 0
                    &&& x & 0x10000u32 == 0
                    &&& x & 0x20000u32 == 0
                    &&& x & 0x40000u32 == 0
                }) by (bit_vector);
            }
        }
        r
    }

    /// The origin square.
    #[verifier::allow_in_spec]
    pub fn from(self) -> Square
        returns
            Square((self.0 & 63u32) as u8),
    {
        Square((self.0 & 63) as u8)
    }

    /// The destination square.
    #[verifier::allow_in_spec]
    pub fn to(self) -> Square
        returns
            Square(((self.0 & 0xFC0u32) >> 6u32) as u8),
    {
        Square(((self.0 & 0xFC0) >> 6) as u8)
    }

    /// The piece a pawn becomes, if the move promotes.
    #[verifier::allow_in_spec]
    pub fn promotion(self) -> Option<PieceKind>
        returns
            (match (self.0 & 0x7000u32) >> 12u32 {
                1 => Some(PieceKind::Knight),
                2 => Some(PieceKind::Bishop),
                3 => Some(PieceKind::Rook),
                4 => Some(PieceKind::Queen),
                _ => None,
            }),
    {
        match (self.0 & 0x7000) >> 12 {
            1 => Some(PieceKind::Knight),
            2 => Some(PieceKind::Bishop),
            3 => Some(PieceKind::Rook),
            4 => Some(PieceKind::Queen),
            _ => None,
        }
    }

    /// The same move marked as a capture.
    pub fn with_capture(self) -> (r: Self)
        ensures
            r.0 == self.0 | 0x8000u32,
            r.from() == self.from(),
            r.to() == self.to(),
            r.promotion() == self.promotion(),
            r.is_capture(),
            same_flags_except_capture(r, self),
    {
        let r = Move(self.0 | 0x8000);
        proof {
            let x = self.0;
            let y = r.0;
            assert(y == x | 0x8000u32 ==> {
                &&& y & 63u32 == x & 63u32
                &&& (y & 0xFC0u32) >> 6u32 == (x & 0xFC0u32) >> 6u32
                &&& (y & 0x7000u32) >> 12u32 == (x & 0x7000u32) >> 12u32
                &&& y & 0x8000u32 != 0
                &&& (y & 0x10000u32 != 0) == (x & 0x10000u32 != 0)
                &&& (y & 0x20000u32 != 0) == (x & 0x20000u32 != 0)
                &&& (y & 0x40000u32 != 0) == (x & 0x40000u32 != 0)
            }) by (bit_vector);
        }
        r
    }

    /// The same move marked as a double pawn push.
    pub fn with_double_pawn_push(self) -> (r: Self)
        ensures
            r.0 == self.0 | 0x10000u32,
            r.from() == self.from(),
            r.to() == self.to(),
            r.promotion() == self.promotion(),
            r.is_capture() == self.is_capture(),
            r.is_double_pawn_push(),
            r.is_en_passant() == self.is_en_passant(),
            r.is_castling() == self.is_castling(),
    {
        let r = Move(self.0 | 0x10000);
        proof {
            let x = self.0;
            let y = r.0;
            assert(y == x | 0x10000u32 ==> {
                &&& y & 63u32 == x & 63u32
                &&& (y & 0xFC0u32) >> 6u32 == (x & 0xFC0u32) >> 6u32
                &&& (y & 0x7000u32) >> 12u32 == (x & 0x7000u32) >> 12u32
                &&& (y & 0x8000u32 != 0) == (x & 0x8000u32 != 0)
                &&& y & 0x10000u32 != 0
                &&& (y & 0x20000u32 != 0) == (x & 0x20000u32 != 0)
                &&& (y & 0x40000u32 != 0) == (x & 0x40000u32 != 0)
            }) by (bit_vector);
        }
        r
    }

    /// An en passant move is also a capture.
    pub fn with_en_passant(self) -> (r: Self)
        ensures
            r.0 == self.0 | 0x20000u32 | 0x8000u32,
            r.from() == self.from(),
            r.to() == self.to(),
            r.promotion() == self.promotion(),
            r.is_capture(),
            r.is_double_pawn_push() == self.is_double_pawn_push(),
            r.is_en_passant(),
            r.is_castling() == self.is_castling(),
    {
        let r = Move(self.0 | 0x20000 | 0x8000);
        proof {
            let x = self.0;
            let y = r.0;
            assert(y == x | 0x20000u32 | 0x8000u32 ==> {
                &&& y & 63u32 == x & 63u32
                &&& (y & 0xFC0u32) >> 6u32 == (x & 0xFC0u32) >> 6u32
                &&& (y & 0x7000u32) >> 12u32 == (x & 0x7000u32) >> 12u32
                &&& y & 0x8000u32 != 0
                &&& (y & 0x10000u32 != 0) == (x & 0x10000u32 != 0)
                &&& y & 0x20000u32 != 0
                &&& (y & 0x40000u32 != 0) == (x & 0x40000u32 != 0)
            }) by (bit_vector);
        }
        r
    }

    /// The same move marked as castling.
    pub fn with_castling(self) -> (r: Self)
        ensures
            r.0 == self.0 | 0x40000u32,
            r.from() == self.from(),
            r.to() == self.to(),
            r.promotion() == self.promotion(),
            r.is_capture() == self.is_capture(),
            r.is_double_pawn_push() == self.is_double_pawn_push(),
            r.is_en_passant() == self.is_en_passant(),
            r.is_castling(),
    {
        let r = Move(self.0 | 0x40000);
        proof {
            let x = self.0;
            let y = r.0;
            assert(y == x | 0x40000u32 ==> {
                &&& y & 63u32 == x & 63u32
                &&& (y & 0xFC0u32) >> 6u32 == (x & 0xFC0u32) >> 6u32
                &&& (y & 0x7000u32) >> 12u32 == (x & 0x7000u32) >> 12u32
                &&& (y & 0x8000u32 != 0) == (x & 0x8000u32 != 0)
                &&& (y & 0x10000u32 != 0) == (x & 0x10000u32 != 0)
                &&& (y & 0x20000u32 != 0) == (x & 0x20000u32 != 0)
                &&& y & 0x40000u32 != 0
            }) by (bit_vector);
        }
        r
    }

    /// Whether the move captures (en passant included).
    #[verifier::allow_in_spec]
    pub fn is_capture(self) -> bool
        returns
            self.0 & 0x8000u32 != 0,
    {
        self.0 & 0x8000 != 0
    }

    /// Whether the move is a pawn's two-square advance.
    #[verifier::allow_in_spec]
    pub fn is_double_pawn_push(self) -> bool
        returns
            self.0 & 0x10000u32 != 0,
    {
        self.0 & 0x10000 != 0
    }

    /// Whether the move captures en passant.
    #[verifier::allow_in_spec]
    pub fn is_en_passant(self) -> bool
        returns
            self.0 & 0x20000u32 != 0,
    {
        self.0 & 0x20000 != 0
    }

    /// Whether the move castles.
    #[verifier::allow_in_spec]
    pub fn is_castling(self) -> bool
        returns
            self.0 & 0x40000u32 != 0,
    {
        self.0 & 0x40000 != 0
    }

    /// The move in long algebraic notation, such as `e2e4` or `a7a8q`.
    pub fn to_uci(self) -> (r: String)
        ensures
            r@ == move_text(self),
    {
        let mut text = self.from().to_uci();
        let dest = self.to().to_uci();
        text.append(dest.as_str());
        match self.promotion() {
            Some(kind) => {
                let letter = match kind {
                    PieceKind::Knight => 'n',
                    PieceKind::Bishop => 'b',
                    PieceKind::Rook => 'r',
                    _ => 'q',
                };
                push_char(&mut text, letter);
            },
            None => {},
        }
        text
    }
}

/// Field extraction inverts packing: the origin and destination of any move are
/// on the board, and its promotion, if any, is a piece a pawn can become.
pub proof fn lemma_move_fields_in_range(mv: Move)
    ensures
        mv.from().0 < 64,
        mv.to().0 < 64,
        mv.promotion() matches Some(k) ==> k != PieceKind::Pawn && k != PieceKind::King,
{
    let x = mv.0;
    assert(x & 63u32 < 64 && (x & 0xFC0u32) >> 6u32 < 64) by (bit_vector);
}

} // verus!
