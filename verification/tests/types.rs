use chesszilla::types::{Color, Piece, PieceKind, Square};

#[test]
fn test_idx() {
    let score = [100, 200];
    assert_eq!(score[Color::White.idx()], 100);
    assert_eq!(score[Color::Black.idx()], 200);
}

#[test]
fn test_opposit() {
    assert_eq!(Color::White.opposit(), Color::Black);
    assert_eq!(Color::Black.opposit(), Color::White);
}

#[test]
fn test_piece_color() {
    assert_eq!(Piece::BlackRook.color(), Color::Black);
    assert_eq!(Piece::WhiteQueen.color(), Color::White);
}

#[test]
fn test_piece_kind() {
    assert_eq!(Piece::BlackRook.kind(), PieceKind::Rook);
    assert_eq!(Piece::WhiteQueen.kind(), PieceKind::Queen);
}

#[test]
fn test_from_color_kind() {
    assert_eq!(Piece::from(Color::Black, PieceKind::King), Piece::BlackKing);
}

#[test]
fn square_uci_round_trip() {
    for text in ["a1", "e4", "h8"] {
        let square = Square::from_uci(text).unwrap();

        assert_eq!(square.to_uci(), text);
        assert_eq!(Square::from_uci(&square.to_uci()), Some(square));
    }
}

#[test]
fn square_uci_rejects_invalid_text() {
    for text in ["", "a", "a11", "i1", "a0", "A1", "h9"] {
        assert_eq!(Square::from_uci(text), None);
    }
}
