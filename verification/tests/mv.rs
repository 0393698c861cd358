use chesszilla::mv::Move;
use chesszilla::types::{PieceKind, Square};

#[test]
fn normal_move_round_trip() {
    let mv = Move::new(Square::from_file_rank(4, 1), Square::from_file_rank(4, 3));

    assert_eq!(mv.from(), Square::from_file_rank(4, 1));
    assert_eq!(mv.to(), Square::from_file_rank(4, 3));
    assert_eq!(mv.promotion(), None);
    assert!(!mv.is_capture());
    assert!(!mv.is_double_pawn_push());
    assert!(!mv.is_en_passant());
    assert!(!mv.is_castling());
}

#[test]
fn promotion_round_trip() {
    let mv = Move::with_promotion(
        Square::from_file_rank(0, 6),
        Square::from_file_rank(0, 7),
        PieceKind::Queen,
    );

    assert_eq!(mv.from(), Square::from_file_rank(0, 6));
    assert_eq!(mv.to(), Square::from_file_rank(0, 7));
    assert_eq!(mv.promotion(), Some(PieceKind::Queen));
}

#[test]
fn special_flags_round_trip() {
    let base = Move::new(Square::from_file_rank(4, 4), Square::from_file_rank(5, 5));

    assert!(base.with_capture().is_capture());
    assert!(base.with_double_pawn_push().is_double_pawn_push());
    assert!(base.with_en_passant().is_en_passant());
    assert!(base.with_en_passant().is_capture());
    assert!(base.with_castling().is_castling());
}

#[test]
fn flags_do_not_corrupt_move_fields() {
    let mv = Move::with_promotion(
        Square::from_file_rank(6, 6),
        Square::from_file_rank(7, 7),
        PieceKind::Knight,
    )
    .with_capture()
    .with_double_pawn_push()
    .with_en_passant()
    .with_castling();

    assert_eq!(mv.from(), Square::from_file_rank(6, 6));
    assert_eq!(mv.to(), Square::from_file_rank(7, 7));
    assert_eq!(mv.promotion(), Some(PieceKind::Knight));
    assert!(mv.is_capture());
    assert!(mv.is_double_pawn_push());
    assert!(mv.is_en_passant());
    assert!(mv.is_castling());
}

#[test]
fn uci_formats_quiet_moves() {
    let mv = Move::new(Square::from_file_rank(4, 1), Square::from_file_rank(4, 3));

    assert_eq!(mv.to_uci(), "e2e4");
}

#[test]
fn uci_formats_castling_moves() {
    let kingside =
        Move::new(Square::from_file_rank(4, 0), Square::from_file_rank(6, 0)).with_castling();
    let queenside =
        Move::new(Square::from_file_rank(4, 7), Square::from_file_rank(2, 7)).with_castling();

    assert_eq!(kingside.to_uci(), "e1g1");
    assert_eq!(queenside.to_uci(), "e8c8");
}

#[test]
fn uci_formats_promotion_moves() {
    let queen = Move::with_promotion(
        Square::from_file_rank(0, 6),
        Square::from_file_rank(0, 7),
        PieceKind::Queen,
    );
    let knight = Move::with_promotion(
        Square::from_file_rank(1, 6),
        Square::from_file_rank(2, 7),
        PieceKind::Knight,
    )
    .with_capture();

    assert_eq!(queen.to_uci(), "a7a8q");
    assert_eq!(knight.to_uci(), "b7c8n");
}
