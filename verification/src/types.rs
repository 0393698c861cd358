use vstd::prelude::*;
use vstd::std_specs::bits::{u64_trailing_zeros, axiom_u64_trailing_zeros};
use crate::bits::{bit, lemma_set_bit, lemma_clear_bit, lemma_test_bit};
use crate::text::push_char;

verus! {

/// A set of squares, one bit per square (bit `i` is square `i`).
#[derive(Debug, Clone, Copy, Default, PartialEq, Eq, Structural)]
pub struct Bitboard(pub u64);

/// Number of set bits among the lowest `n` bits of `x`.
pub open spec fn bits_below(x: u64, n: nat) -> nat
    decreases n,
{
    if n == 0 {
        0
    } else {
        bits_below(x, (n - 1) as nat) + if bit(x, (n - 1) as u64) {
            1nat
        } else {
            0nat
        }
    }
}

proof fn lemma_clear_lowest(x: u64, t: u64, i: u64)
    by (bit_vector)
    requires
        x != 0u64,
        t < 64u64,
        i < 64u64,
        (x >> t) & 1u64 == 1u64,
        x << ((64u64 - t) as u64) == 0u64,
    ensures
        ((x & ((x - 1u64) as u64)) >> i) & 1u64 == 1u64 <==> ((x >> i) & 1u64 == 1u64 && i != t),
        i < t ==> (x >> i) & 1u64 == 0u64,
{
}

impl Bitboard {
    /// The empty set of squares.
    #[allow(non_snake_case)]
    pub fn EMPTY() -> (r: Bitboard)
        ensures
            r.0 == 0,
    {
        Bitboard(0)
    }

    /// Whether square `i` belongs to the set.
    pub open spec fn has(self, i: int) -> bool {
        bit(self.0, i as u64)
    }

    /// Whether no square is set.
    pub fn is_empty(self) -> (r: bool)
        ensures
            r == (self.0 == 0),
    {
        self.0 == 0
    }

    /// Whether the square is set.
    pub fn contains(self, square: Square) -> (r: bool)
        requires
            square.0 < 64,
        ensures
            r == self.has(square.0 as int),
    {
        proof {
            lemma_test_bit(self.0, square.0 as u64);
        }
        (self.0 & (1u64 << square.0)) != 0
    }

    /// Sets the square.
    pub fn set(&mut self, square: Square)
        requires
            square.0 < 64,
        ensures
            final(self).0 == old(self).0 | (1u64 << square.0),
            forall|i: int| 0 <= i < 64 ==> #[trigger] final(self).has(i) == (old(self).has(i) || i == square.0),
    {
        self.0 = self.0 | (1u64 << square.0);
        proof {
            assert forall|i: int| 0 <= i < 64 implies #[trigger] self.has(i) == (old(self).has(i) || i == square.0) by {
                lemma_set_bit(old(self).0, square.0 as u64, i as u64);
            }
        }
    }

    /// Clears the square.
    pub fn clear(&mut self, square: Square)
        requires
            square.0 < 64,
        ensures
            final(self).0 == old(self).0 & !(1u64 << square.0),
            forall|i: int| 0 <= i < 64 ==> #[trigger] final(self).has(i) == (old(self).has(i) && i != square.0),
    {
        self.0 = self.0 & !(1u64 << square.0);
        proof {
            assert forall|i: int| 0 <= i < 64 implies #[trigger] self.has(i) == (old(self).has(i) && i != square.0) by {
                lemma_clear_bit(old(self).0, square.0 as u64, i as u64);
            }
        }
    }

    /// The squares without this one.
    pub fn without(self, square: Square) -> (r: Self)
        requires
            square.0 < 64,
        ensures
            r.0 == self.0 & !(1u64 << square.0),
            forall|i: int| 0 <= i < 64 ==> #[trigger] r.has(i) == (self.has(i) && i != square.0),
    {
        let r = Bitboard(self.0 & !(1u64 << square.0));
        proof {
            assert forall|i: int| 0 <= i < 64 implies #[trigger] r.has(i) == (self.has(i) && i != square.0) by {
                lemma_clear_bit(self.0, square.0 as u64, i as u64);
            }
        }
        r
    }

    /// Number of squares in the set.
    pub fn count(self) -> (r: u32)
        ensures
            r as nat == bits_below(self.0, 64),
    {
        let mut n: u32 = 0;
        let mut i: u64 = 0;
        while i < 64
            invariant
                i <= 64,
                n as nat == bits_below(self.0, i as nat),
                n <= i,
            decreases 64 - i,
        {
            if (self.0 >> i) & 1 == 1 {
                n = n + 1;
            }
            i = i + 1;
        }
        n
    }

    /// Removes and returns the lowest square of the set.
    pub fn pop_lsb(&mut self) -> (r: Option<Square>)
        ensures
            old(self).0 == 0 ==> r is None && final(self).0 == 0,
            old(self).0 != 0 ==> (r matches Some(sq) && {
                &&& sq.0 < 64
                &&& old(self).has(sq.0 as int)
                &&& forall|j: int| 0 <= j < sq.0 ==> !#[trigger] old(self).has(j)
                &&& final(self).0 == old(self).0 & ((old(self).0 - 1) as u64)
                &&& forall|i: int| 0 <= i < 64 ==> #[trigger] final(self).has(i) == (old(self).has(i) && i != sq.0)
            }),
    {
        if self.0 == 0 {
            return None;
        }
        let t = self.0.trailing_zeros();
        proof {
            axiom_u64_trailing_zeros(self.0);
        }
        let lsb = t as u8;
        let ghost x = self.0;
        self.0 = self.0 & (self.0 - 1);
        proof {
            assert forall|i: int| 0 <= i < 64 implies #[trigger] self.has(i) == (old(self).has(i) && i != lsb) by {
                lemma_clear_lowest(x, t as u64, i as u64);
            }
            assert forall|j: int| 0 <= j < lsb implies !#[trigger] old(self).has(j) by {
                lemma_clear_lowest(x, t as u64, j as u64);
            }
        }
        Some(Square(lsb))
    }
}

/// The two sides.
#[derive(Debug, Clone, Copy, PartialEq, Eq, Structural)]
pub enum Color {
    White,
    Black,
}

impl Color {
    /// The color as an index: 0 for white, 1 for black.
    #[verifier::allow_in_spec]
    pub fn idx(self) -> usize
        returns
            (match self {
                Color::White => 0usize,
                Color::Black => 1usize,
            }),
    {
        match self {
            Color::White => 0,
            Color::Black => 1,
        }
    }

    /// The other color.
    #[verifier::allow_in_spec]
    pub fn opposit(self) -> Self
        returns
            (match self {
                Color::White => Color::Black,
                Color::Black => Color::White,
            }),
    {
        match self {
            Color::White => Color::Black,
            Color::Black => Color::White,
        }
    }
}

/// The six kinds of chess pieces.
#[derive(Debug, Clone, Copy, PartialEq, Eq, Structural)]
pub enum PieceKind {
    Pawn,
    Knight,
    Bishop,
    Rook,
    Queen,
    King,
}

impl PieceKind {
    /// The kind as an index from 0 for pawn to 5 for king.
    #[verifier::allow_in_spec]
    pub fn idx(self) -> usize
        returns
            (match self {
                PieceKind::Pawn => 0usize,
                PieceKind::Knight => 1usize,
                PieceKind::Bishop => 2usize,
                PieceKind::Rook => 3usize,
                PieceKind::Queen => 4usize,
                PieceKind::King => 5usize,
            }),
    {
        match self {
            PieceKind::Pawn => 0,
            PieceKind::Knight => 1,
            PieceKind::Bishop => 2,
            PieceKind::Rook => 3,
            PieceKind::Queen => 4,
            PieceKind::King => 5,
        }
    }
}

/// A colored piece; white pieces come first, each color in `PieceKind` order.
#[derive(Debug, Clone, Copy, PartialEq, Eq, Structural)]
pub enum Piece {
    WhitePawn,
    WhiteKnight,
    WhiteBishop,
    WhiteRook,
    WhiteQueen,
    WhiteKing,
    BlackPawn,
    BlackKnight,
    BlackBishop,
    BlackRook,
    BlackQueen,
    BlackKing,
}

impl Piece {
    /// The piece as an index: color index times six plus kind index.
    #[verifier::allow_in_spec]
    pub fn idx(self) -> usize
        returns
            (match self {
                Piece::WhitePawn => 0usize,
                Piece::WhiteKnight => 1usize,
                Piece::WhiteBishop => 2usize,
                Piece::WhiteRook => 3usize,
                Piece::WhiteQueen => 4usize,
                Piece::WhiteKing => 5usize,
                Piece::BlackPawn => 6usize,
                Piece::BlackKnight => 7usize,
                Piece::BlackBishop => 8usize,
                Piece::BlackRook => 9usize,
                Piece::BlackQueen => 10usize,
                Piece::BlackKing => 11usize,
            }),
    {
        match self {
            Piece::WhitePawn => 0,
            Piece::WhiteKnight => 1,
            Piece::WhiteBishop => 2,
            Piece::WhiteRook => 3,
            Piece::WhiteQueen => 4,
            Piece::WhiteKing => 5,
            Piece::BlackPawn => 6,
            Piece::BlackKnight => 7,
            Piece::BlackBishop => 8,
            Piece::BlackRook => 9,
            Piece::BlackQueen => 10,
            Piece::BlackKing => 11,
        }
    }

    /// White for the first six pieces, black for the rest.
    #[verifier::allow_in_spec]
    pub fn color(self) -> Color
        returns
            (if self.idx() < 6 {
                Color::White
            } else {
                Color::Black
            }),
    {
        if self.idx() < 6 {
            Color::White
        } else {
            Color::Black
        }
    }

    /// The kind of the piece.
    #[verifier::allow_in_spec]
    pub fn kind(self) -> PieceKind
        returns
            (match self.idx() % 6 {
                0 => PieceKind::Pawn,
                1 => PieceKind::Knight,
                2 => PieceKind::Bishop,
                3 => PieceKind::Rook,
                4 => PieceKind::Queen,
                _ => PieceKind::King,
            }),
    {
        match self.idx() % 6 {
            0 => PieceKind::Pawn,
            1 => PieceKind::Knight,
            2 => PieceKind::Bishop,
            3 => PieceKind::Rook,
            4 => PieceKind::Queen,
            _ => PieceKind::King,
        }
    }

    /// The piece of the given color and kind.
    #[verifier::allow_in_spec]
    pub fn from(color: Color, kind: PieceKind) -> Self
        returns
            (match (color, kind) {
                (Color::White, PieceKind::Pawn) => Piece::WhitePawn,
                (Color::White, PieceKind::Knight) => Piece::WhiteKnight,
                (Color::White, PieceKind::Bishop) => Piece::WhiteBishop,
                (Color::White, PieceKind::Rook) => Piece::WhiteRook,
                (Color::White, PieceKind::Queen) => Piece::WhiteQueen,
                (Color::White, PieceKind::King) => Piece::WhiteKing,
                (Color::Black, PieceKind::Pawn) => Piece::BlackPawn,
                (Color::Black, PieceKind::Knight) => Piece::BlackKnight,
                (Color::Black, PieceKind::Bishop) => Piece::BlackBishop,
                (Color::Black, PieceKind::Rook) => Piece::BlackRook,
                (Color::Black, PieceKind::Queen) => Piece::BlackQueen,
                (Color::Black, PieceKind::King) => Piece::BlackKing,
            }),
    {
        match (color, kind) {
            (Color::White, PieceKind::Pawn) => Piece::WhitePawn,
            (Color::White, PieceKind::Knight) => Piece::WhiteKnight,
            (Color::White, PieceKind::Bishop) => Piece::WhiteBishop,
            (Color::White, PieceKind::Rook) => Piece::WhiteRook,
            (Color::White, PieceKind::Queen) => Piece::WhiteQueen,
            (Color::White, PieceKind::King) => Piece::WhiteKing,
            (Color::Black, PieceKind::Pawn) => Piece::BlackPawn,
            (Color::Black, PieceKind::Knight) => Piece::BlackKnight,
            (Color::Black, PieceKind::Bishop) => Piece::BlackBishop,
            (Color::Black, PieceKind::Rook) => Piece::BlackRook,
            (Color::Black, PieceKind::Queen) => Piece::BlackQueen,
            (Color::Black, PieceKind::King) => Piece::BlackKing,
        }
    }
}

/// Building a piece from a color and a kind gives back that color and that kind,
/// and every piece is the one built from its own color and kind.
pub proof fn lemma_piece_from_parts(color: Color, kind: PieceKind, p: Piece)
    ensures
        Piece::from(color, kind).color() == color,
        Piece::from(color, kind).kind() == kind,
        Piece::from(p.color(), p.kind()) == p,
        Piece::from(color, kind).idx() == color.idx() * 6 + kind.idx(),
{
}

/// A board square: `rank * 8 + file`, with a1 = 0 and h8 = 63.
#[derive(Debug, Clone, Copy, PartialEq, Eq, Default, Structural)]
pub struct Square(pub u8);

/// The square named by two characters `<file a-h><rank 1-8>`, if the text is one.
pub open spec fn square_from_text(text: Seq<char>) -> Option<Square> {
    if text.len() == 2 && 'a' <= text[0] <= 'h' && '1' <= text[1] <= '8' {
        Some(Square(((text[1] as int - '1' as int) * 8 + (text[0] as int - 'a' as int)) as u8))
    } else {
        None
    }
}

/// The two characters that name a square: file letter then rank digit.
pub open spec fn square_text(sq: Square) -> Seq<char> {
    seq![(97 + sq.0 % 8) as char, (49 + sq.0 / 8) as char]
}

impl Square {
    /// The square as an index into the board.
    #[verifier::allow_in_spec]
    pub fn idx(self) -> usize
        returns
            self.0 as usize,
    {
        self.0 as usize
    }

    /// The file, 0 for a to 7 for h.
    #[verifier::allow_in_spec]
    pub fn file(self) -> u8
        returns
            self.0 % 8,
    {
        let x = self.0;
        assert(x & 7 == x % 8) by (bit_vector);
        x & 7
    }

    /// The rank, 0 for the first to 7 for the eighth.
    #[verifier::allow_in_spec]
    pub fn rank(self) -> u8
        returns
            self.0 / 8,
    {
        let x = self.0;
        assert(x >> 3 == x / 8) by (bit_vector);
        x >> 3
    }

    /// The square on a file and rank.
    pub fn from_file_rank(file: u8, rank: u8) -> (r: Self)
        requires
            rank * 8 + file <= 255,
        ensures
            r.0 == rank * 8 + file,
    {
        Square(rank * 8 + file)
    }

    /// Reads a square name such as `e4`.
    pub fn from_uci(text: &str) -> (r: Option<Self>)
        ensures
            r == square_from_text(text@),
    {
        if text.unicode_len() != 2 {
            return None;
        }
        let f = text.get_char(0);
        let k = text.get_char(1);
        if !('a' <= f && f <= 'h') {
            return None;
        }
        if !('1' <= k && k <= '8') {
            return None;
        }
        let file = (f as u32 - 'a' as u32) as u8;
        let rank = (k as u32 - '1' as u32) as u8;
        Some(Square::from_file_rank(file, rank))
    }

    /// The square name such as `e4`.
    pub fn to_uci(self) -> (r: String)
        ensures
            r@ == square_text(self),
    {
        let file = (97u8 + self.file()) as char;
        let rank = (49u8 + self.rank()) as char;
        let mut text = String::new();
        push_char(&mut text, file);
        push_char(&mut text, rank);
        assert(text@ =~= square_text(self));
        text
    }
}

/// Naming a square of the board and reading the name back gives the same square.
pub proof fn lemma_square_text_round_trip(sq: Square)
    requires
        sq.0 < 64,
    ensures
        square_from_text(square_text(sq)) == Some(sq),
{
}

} // verus!
