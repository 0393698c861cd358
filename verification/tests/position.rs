use chesszilla::mv::Move;
use chesszilla::position::{CastlingRights, FenError, Position, State};
use chesszilla::types::{Color, Piece, PieceKind, Square};
use chesszilla::zobrist;

const STARTPOS: &str = "rnbqkbnr/pppppppp/8/8/8/8/PPPPPPPP/RNBQKBNR w KQkq - 0 1";

fn assert_hash_consistent(pos: &Position) {
    assert_eq!(pos.zobrist, zobrist::hash_position(pos));
}

fn assert_move_hash_consistent_after_make(fen: &str, mv: Move) {
    let mut pos = Position::from_fen(fen).unwrap();
    let before = pos.clone();
    let before_hash = pos.zobrist;

    let state = pos.make_move(mv);
    assert_hash_consistent(&pos);

    pos.unmake_move(mv, state);
    assert_eq!(pos, before);
    assert_eq!(pos.zobrist, before_hash);
    assert_hash_consistent(&pos);
}

fn record_move(pos: &mut Position, history: &mut Vec<State>, mv: Move) {
    let state = pos.make_move(mv);
    history.push(state);
}

fn state_with_zobrist(zobrist: u64) -> State {
    State {
        castling: CastlingRights::EMPTY(),
        ep_square: None,
        halfmove_clock: 0,
        captured: None,
        zobrist,
    }
}

fn record_knight_cycle(pos: &mut Position, history: &mut Vec<State>) {
    record_move(
        pos,
        history,
        Move::new(Square::from_file_rank(6, 0), Square::from_file_rank(5, 2)),
    );
    record_move(
        pos,
        history,
        Move::new(Square::from_file_rank(6, 7), Square::from_file_rank(5, 5)),
    );
    record_move(
        pos,
        history,
        Move::new(Square::from_file_rank(5, 2), Square::from_file_rank(6, 0)),
    );
    record_move(
        pos,
        history,
        Move::new(Square::from_file_rank(5, 5), Square::from_file_rank(6, 7)),
    );
}

#[test]
fn parse_starting_position() {
    let pos = Position::from_fen(STARTPOS).unwrap();

    assert_eq!(pos.side_to_move, Color::White);
    assert_eq!(
        pos.piece_at(Square::from_file_rank(0, 0)),
        Some(Piece::WhiteRook)
    );
    assert_eq!(
        pos.piece_at(Square::from_file_rank(4, 0)),
        Some(Piece::WhiteKing)
    );
    assert_eq!(
        pos.piece_at(Square::from_file_rank(4, 7)),
        Some(Piece::BlackKing)
    );
    assert_eq!(
        pos.piece_at(Square::from_file_rank(7, 7)),
        Some(Piece::BlackRook)
    );
    assert_eq!(pos.pieces_of(Color::White, PieceKind::Pawn).count(), 8);
    assert_eq!(pos.pieces_of(Color::Black, PieceKind::Pawn).count(), 8);
    assert_eq!(pos.color_bb(Color::White).count(), 16);
    assert_eq!(pos.color_bb(Color::Black).count(), 16);
    assert_eq!(pos.occupied().count(), 32);
    assert_eq!(
        pos.king_sq[Color::White.idx()],
        Square::from_file_rank(4, 0)
    );
    assert_eq!(
        pos.king_sq[Color::Black.idx()],
        Square::from_file_rank(4, 7)
    );
    assert!(pos.castling.has(CastlingRights::WHITE_KINGSIDE));
    assert!(pos.castling.has(CastlingRights::WHITE_QUEENSIDE));
    assert!(pos.castling.has(CastlingRights::BLACK_KINGSIDE));
    assert!(pos.castling.has(CastlingRights::BLACK_QUEENSIDE));
    assert_eq!(pos.ep_square, None);
    assert_eq!(pos.halfmove_clock, 0);
    assert_eq!(pos.fullmove_number, 1);
}

#[test]
fn repetition_count_is_one_without_history() {
    let pos = Position::from_fen("4k3/8/8/8/8/8/8/4K3 w - - 0 1").unwrap();

    assert_eq!(pos.repetition_count(&[]), 1);
    assert!(!pos.is_threefold_repetition(&[]));
}

#[test]
fn repetition_count_includes_one_prior_reversible_cycle() {
    let mut pos = Position::from_fen("4k1n1/8/8/8/8/8/8/4K1N1 w - - 0 1").unwrap();
    let mut history = Vec::new();

    record_knight_cycle(&mut pos, &mut history);

    assert_eq!(pos.repetition_count(&history), 2);
    assert!(!pos.is_threefold_repetition(&history));
}

#[test]
fn repetition_count_detects_threefold_after_two_reversible_cycles() {
    let mut pos = Position::from_fen("4k1n1/8/8/8/8/8/8/4K1N1 w - - 0 1").unwrap();
    let mut history = Vec::new();

    record_knight_cycle(&mut pos, &mut history);
    record_knight_cycle(&mut pos, &mut history);

    assert_eq!(pos.repetition_count(&history), 3);
    assert!(pos.is_threefold_repetition(&history));
}

#[test]
fn repetition_count_ignores_matches_before_pawn_move() {
    let mut pos = Position::from_fen("4k3/8/8/8/8/8/P7/4K3 w - - 7 1").unwrap();
    let pawn_move = Move::new(Square::from_file_rank(0, 1), Square::from_file_rank(0, 2));
    let state = pos.make_move(pawn_move);
    let stale_match = state_with_zobrist(pos.zobrist);
    let history = vec![stale_match, state];

    assert_eq!(pos.halfmove_clock, 0);
    assert_eq!(pos.repetition_count(&history), 1);
    assert!(!pos.is_threefold_repetition(&history));
}

#[test]
fn repetition_count_ignores_matches_before_capture() {
    let mut pos = Position::from_fen("4k3/8/8/8/8/5p2/8/4K1N1 w - - 7 1").unwrap();
    let capture_move =
        Move::new(Square::from_file_rank(6, 0), Square::from_file_rank(5, 2)).with_capture();
    let state = pos.make_move(capture_move);
    let stale_match = state_with_zobrist(pos.zobrist);
    let history = vec![stale_match, state];

    assert_eq!(pos.halfmove_clock, 0);
    assert_eq!(pos.repetition_count(&history), 1);
    assert!(!pos.is_threefold_repetition(&history));
}

#[test]
fn repetition_count_for_fen_without_history_is_one_with_nonzero_halfmove_clock() {
    let pos = Position::from_fen("4k3/8/8/8/8/8/8/4K3 w - - 42 1").unwrap();

    assert_eq!(pos.repetition_count(&[]), 1);
    assert!(!pos.is_threefold_repetition(&[]));
}

#[test]
fn parse_position_metadata() {
    let pos = Position::from_fen("4k3/8/8/8/3pP3/8/8/4K3 b Kq e3 17 42").unwrap();

    assert_eq!(pos.side_to_move, Color::Black);
    assert_eq!(pos.castling, CastlingRights(0b1001));
    assert_eq!(pos.ep_square, Some(Square::from_file_rank(4, 2)));
    assert_eq!(pos.halfmove_clock, 17);
    assert_eq!(pos.fullmove_number, 42);
}

#[test]
fn parse_from_str() {
    let pos: Position = "4k3/8/8/8/8/8/8/4K3 w - - 0 1".parse().unwrap();

    assert_eq!(
        pos.piece_at(Square::from_file_rank(4, 0)),
        Some(Piece::WhiteKing)
    );
    assert_eq!(
        pos.piece_at(Square::from_file_rank(4, 7)),
        Some(Piece::BlackKing)
    );
}

#[test]
fn reject_wrong_field_count() {
    assert_eq!(
        Position::from_fen("8/8/8/8/8/8/8/8 w - - 0").unwrap_err(),
        FenError::WrongFieldCount
    );
}

#[test]
fn reject_bad_board_shape() {
    assert_eq!(
        Position::from_fen("4k3/8/8/8/8/8/8/9K w - - 0 1").unwrap_err(),
        FenError::InvalidBoard
    );
    assert_eq!(
        Position::from_fen("4k3/8/8/8/8/8/8/7 w - - 0 1").unwrap_err(),
        FenError::InvalidBoard
    );
}

#[test]
fn reject_bad_metadata() {
    assert_eq!(
        Position::from_fen("4k3/8/8/8/8/8/8/4K3 x - - 0 1").unwrap_err(),
        FenError::InvalidSideToMove
    );
    assert_eq!(
        Position::from_fen("4k3/8/8/8/8/8/8/4K3 w KK - 0 1").unwrap_err(),
        FenError::InvalidCastling
    );
    assert_eq!(
        Position::from_fen("4k3/8/8/8/8/8/8/4K3 w - e4 0 1").unwrap_err(),
        FenError::InvalidEnPassant
    );
    assert_eq!(
        Position::from_fen("4k3/8/8/8/8/8/8/4K3 w - - x 1").unwrap_err(),
        FenError::InvalidHalfmoveClock
    );
    assert_eq!(
        Position::from_fen("4k3/8/8/8/8/8/8/4K3 w - - 0 0").unwrap_err(),
        FenError::InvalidFullmoveNumber
    );
}

#[test]
fn reject_missing_or_extra_kings() {
    assert_eq!(
        Position::from_fen("8/8/8/8/8/8/8/4K3 w - - 0 1").unwrap_err(),
        FenError::MissingKing(Color::Black)
    );
    assert_eq!(
        Position::from_fen("4k3/8/8/8/8/8/8/4KK2 w - - 0 1").unwrap_err(),
        FenError::TooManyKings(Color::White)
    );
}

#[test]
fn piece_mutators_keep_hash_consistent() {
    let mut pos = Position::empty();
    assert_hash_consistent(&pos);

    pos.add_piece(Piece::WhiteKing, Square::from_file_rank(4, 0));
    assert_hash_consistent(&pos);

    pos.add_piece(Piece::BlackKing, Square::from_file_rank(4, 7));
    assert_hash_consistent(&pos);

    pos.add_piece(Piece::WhiteKnight, Square::from_file_rank(6, 0));
    assert_hash_consistent(&pos);

    pos.move_piece(
        Piece::WhiteKnight,
        Square::from_file_rank(6, 0),
        Square::from_file_rank(5, 2),
    );
    assert_hash_consistent(&pos);

    pos.remove_piece(Piece::WhiteKnight, Square::from_file_rank(5, 2));
    assert_hash_consistent(&pos);
}

#[test]
fn make_move_keeps_hash_consistent_for_common_metadata_changes() {
    let cases = [
        (
            "4k3/8/8/8/8/8/8/4K1N1 w - - 4 1",
            Move::new(Square::from_file_rank(6, 0), Square::from_file_rank(5, 2)),
        ),
        (
            "4k3/8/8/8/8/8/4P3/4K3 w - - 0 1",
            Move::new(Square::from_file_rank(4, 1), Square::from_file_rank(4, 3))
                .with_double_pawn_push(),
        ),
        (
            "4k3/8/8/8/8/8/8/R3K2R w KQ - 0 1",
            Move::new(Square::from_file_rank(4, 0), Square::from_file_rank(6, 0))
                .with_castling(),
        ),
        (
            "4k3/8/8/8/8/8/8/R3K2R w KQ - 0 1",
            Move::new(Square::from_file_rank(7, 0), Square::from_file_rank(7, 1)),
        ),
        (
            "4k2r/8/8/8/8/8/8/4K2R w Kk - 0 1",
            Move::new(Square::from_file_rank(7, 0), Square::from_file_rank(7, 7))
                .with_capture(),
        ),
        (
            "4k1n1/8/8/8/8/8/8/4K3 b - - 4 7",
            Move::new(Square::from_file_rank(6, 7), Square::from_file_rank(5, 5)),
        ),
    ];

    for (fen, mv) in cases {
        assert_move_hash_consistent_after_make(fen, mv);
    }
}

#[test]
fn quiet_move_make_unmake_restores_position() {
    let mut pos = Position::from_fen("4k3/8/8/8/8/8/8/4K1N1 w - - 4 1").unwrap();
    let before = pos.clone();
    let mv = Move::new(Square::from_file_rank(6, 0), Square::from_file_rank(5, 2));

    let state = pos.make_move(mv);
    pos.unmake_move(mv, state);

    assert_eq!(pos, before);
}

#[test]
fn capture_make_unmake_restores_position() {
    let mut pos = Position::from_fen("4k3/8/8/8/8/5p2/8/4K1N1 w - - 4 1").unwrap();
    let before = pos.clone();
    let before_hash = pos.zobrist;
    let mv =
        Move::new(Square::from_file_rank(6, 0), Square::from_file_rank(5, 2)).with_capture();

    let state = pos.make_move(mv);
    pos.unmake_move(mv, state);

    assert_eq!(pos, before);
    assert_eq!(pos.zobrist, before_hash);
    assert_hash_consistent(&pos);
}

#[test]
fn double_pawn_push_sets_en_passant_square() {
    let mut pos = Position::from_fen("4k3/8/8/8/8/8/4P3/4K3 w - - 0 1").unwrap();
    let mv = Move::new(Square::from_file_rank(4, 1), Square::from_file_rank(4, 3))
        .with_double_pawn_push();

    let state = pos.make_move(mv);

    assert_eq!(pos.ep_square, Some(Square::from_file_rank(4, 2)));
    pos.unmake_move(mv, state);
    assert_eq!(pos.ep_square, None);
}

#[test]
fn halfmove_clock_updates_for_normal_pawn_and_capture_moves() {
    let mut quiet = Position::from_fen("4k3/8/8/8/8/8/8/4K1N1 w - - 4 1").unwrap();
    let quiet_mv = Move::new(Square::from_file_rank(6, 0), Square::from_file_rank(5, 2));
    let quiet_state = quiet.make_move(quiet_mv);
    assert_eq!(quiet.halfmove_clock, 5);
    quiet.unmake_move(quiet_mv, quiet_state);
    assert_eq!(quiet.halfmove_clock, 4);

    let mut pawn = Position::from_fen("4k3/8/8/8/8/8/4P3/4K3 w - - 4 1").unwrap();
    let pawn_mv = Move::new(Square::from_file_rank(4, 1), Square::from_file_rank(4, 2));
    let pawn_state = pawn.make_move(pawn_mv);
    assert_eq!(pawn.halfmove_clock, 0);
    pawn.unmake_move(pawn_mv, pawn_state);
    assert_eq!(pawn.halfmove_clock, 4);

    let mut capture = Position::from_fen("4k3/8/8/8/8/5p2/8/4K1N1 w - - 4 1").unwrap();
    let capture_mv =
        Move::new(Square::from_file_rank(6, 0), Square::from_file_rank(5, 2)).with_capture();
    let capture_state = capture.make_move(capture_mv);
    assert_eq!(capture.halfmove_clock, 0);
    capture.unmake_move(capture_mv, capture_state);
    assert_eq!(capture.halfmove_clock, 4);
}

#[test]
fn black_move_increments_fullmove_and_unmake_restores_it() {
    let mut pos = Position::from_fen("4k1n1/8/8/8/8/8/8/4K3 b - - 4 7").unwrap();
    let before = pos.clone();
    let mv = Move::new(Square::from_file_rank(6, 7), Square::from_file_rank(5, 5));

    let state = pos.make_move(mv);

    assert_eq!(pos.fullmove_number, 8);
    pos.unmake_move(mv, state);
    assert_eq!(pos, before);
}

#[test]
fn promotion_make_unmake_restores_position_for_each_piece() {
    for promoted in [
        PieceKind::Knight,
        PieceKind::Bishop,
        PieceKind::Rook,
        PieceKind::Queen,
    ] {
        let mut pos = Position::from_fen("4k3/P7/8/8/8/8/8/4K3 w - - 0 1").unwrap();
        let before = pos.clone();
        let before_hash = pos.zobrist;
        let mv = Move::with_promotion(
            Square::from_file_rank(0, 6),
            Square::from_file_rank(0, 7),
            promoted,
        );

        let state = pos.make_move(mv);

        assert_eq!(
            pos.piece_at(Square::from_file_rank(0, 7)),
            Some(Piece::from(Color::White, promoted))
        );
        assert_eq!(pos.piece_at(Square::from_file_rank(0, 6)), None);
        pos.unmake_move(mv, state);
        assert_eq!(pos, before);
        assert_eq!(pos.zobrist, before_hash);
        assert_hash_consistent(&pos);
    }
}

#[test]
fn en_passant_make_unmake_restores_position() {
    let mut pos = Position::from_fen("4k3/8/8/3pP3/8/8/8/4K3 w - d6 0 1").unwrap();
    let before = pos.clone();
    let before_hash = pos.zobrist;
    let mv =
        Move::new(Square::from_file_rank(4, 4), Square::from_file_rank(3, 5)).with_en_passant();

    let state = pos.make_move(mv);

    assert_eq!(
        pos.piece_at(Square::from_file_rank(3, 5)),
        Some(Piece::WhitePawn)
    );
    assert_eq!(pos.piece_at(Square::from_file_rank(3, 4)), None);
    pos.unmake_move(mv, state);
    assert_eq!(pos, before);
    assert_eq!(pos.zobrist, before_hash);
    assert_hash_consistent(&pos);
}

#[test]
fn all_castling_moves_make_unmake_restore_position() {
    let cases = [
        (
            "4k3/8/8/8/8/8/8/R3K2R w KQ - 0 1",
            Square::from_file_rank(4, 0),
            Square::from_file_rank(6, 0),
            Square::from_file_rank(5, 0),
            Piece::WhiteRook,
        ),
        (
            "4k3/8/8/8/8/8/8/R3K2R w KQ - 0 1",
            Square::from_file_rank(4, 0),
            Square::from_file_rank(2, 0),
            Square::from_file_rank(3, 0),
            Piece::WhiteRook,
        ),
        (
            "r3k2r/8/8/8/8/8/8/4K3 b kq - 0 1",
            Square::from_file_rank(4, 7),
            Square::from_file_rank(6, 7),
            Square::from_file_rank(5, 7),
            Piece::BlackRook,
        ),
        (
            "r3k2r/8/8/8/8/8/8/4K3 b kq - 0 1",
            Square::from_file_rank(4, 7),
            Square::from_file_rank(2, 7),
            Square::from_file_rank(3, 7),
            Piece::BlackRook,
        ),
    ];

    for (fen, from, to, rook_to, rook) in cases {
        let mut pos = Position::from_fen(fen).unwrap();
        let before = pos.clone();
        let mv = Move::new(from, to).with_castling();

        let state = pos.make_move(mv);

        assert_eq!(pos.piece_at(to).unwrap().kind(), PieceKind::King);
        assert_eq!(pos.piece_at(rook_to), Some(rook));
        pos.unmake_move(mv, state);
        assert_eq!(pos, before);
    }
}

#[test]
fn king_move_removes_both_castling_rights_for_color() {
    let mut pos = Position::from_fen("4k3/8/8/8/8/8/4K3/R6R w KQ - 0 1").unwrap();
    let mv = Move::new(Square::from_file_rank(4, 1), Square::from_file_rank(4, 2));

    pos.make_move(mv);

    assert!(!pos.castling.has(CastlingRights::WHITE_KINGSIDE));
    assert!(!pos.castling.has(CastlingRights::WHITE_QUEENSIDE));
}

#[test]
fn rook_move_removes_only_matching_castling_right() {
    let mut pos = Position::from_fen("4k3/8/8/8/8/8/8/R3K2R w KQ - 0 1").unwrap();
    let mv = Move::new(Square::from_file_rank(7, 0), Square::from_file_rank(7, 1));

    pos.make_move(mv);

    assert!(!pos.castling.has(CastlingRights::WHITE_KINGSIDE));
    assert!(pos.castling.has(CastlingRights::WHITE_QUEENSIDE));
}

#[test]
fn rook_capture_on_original_square_removes_matching_opponent_right() {
    let mut pos = Position::from_fen("4k2r/8/8/8/8/8/8/4K2R w Kk - 0 1").unwrap();
    let mv =
        Move::new(Square::from_file_rank(7, 0), Square::from_file_rank(7, 7)).with_capture();

    pos.make_move(mv);

    assert!(!pos.castling.has(CastlingRights::BLACK_KINGSIDE));
}
