use chesszilla::movegen::{generate_legal, generate_pseudo_legal, in_check, is_square_attacked, perft};
use chesszilla::mv::Move;
use chesszilla::position::Position;
use chesszilla::types::{Color, PieceKind, Square};
use chesszilla::zobrist;

fn parse_pos(fen: &str) -> Position {
    Position::from_fen(fen).unwrap()
}

fn assert_hash_consistent(pos: &Position) {
    assert_eq!(pos.zobrist, zobrist::hash_position(pos));
}

fn assert_hash_invariants_at_depth(pos: &mut Position, depth: u32) {
    assert_hash_consistent(pos);
    if depth == 0 {
        return;
    }

    let mut moves = Vec::new();
    generate_legal(pos, &mut moves);

    for mv in moves {
        let before = pos.clone();
        let before_hash = pos.zobrist;
        let state = pos.make_move(mv);

        assert_hash_consistent(pos);
        assert_hash_invariants_at_depth(pos, depth - 1);

        pos.unmake_move(mv, state);
        assert_eq!(pos.zobrist, before_hash);
        assert_eq!(pos, &before);
        assert_hash_consistent(pos);
    }
}

fn has_move(moves: &[Move], from: Square, to: Square) -> bool {
    moves.iter().any(|mv| mv.from() == from && mv.to() == to)
}

fn has_capture(moves: &[Move], from: Square, to: Square) -> bool {
    moves
        .iter()
        .any(|mv| mv.from() == from && mv.to() == to && mv.is_capture())
}

fn count_promotions(moves: &[Move], from: Square, to: Square) -> usize {
    moves
        .iter()
        .filter(|mv| mv.from() == from && mv.to() == to && mv.promotion().is_some())
        .count()
}

fn has_castling(moves: &[Move], from: Square, to: Square) -> bool {
    moves
        .iter()
        .any(|mv| mv.from() == from && mv.to() == to && mv.is_castling())
}

#[test]
fn detects_pawn_attack_direction_for_both_colors() {
    let pos = parse_pos("4k3/8/8/5p2/3P4/8/8/4K3 w - - 0 1");

    assert!(is_square_attacked(
        &pos,
        Square::from_file_rank(4, 4),
        Color::White
    ));
    assert!(is_square_attacked(
        &pos,
        Square::from_file_rank(4, 3),
        Color::Black
    ));
    assert!(!is_square_attacked(
        &pos,
        Square::from_file_rank(4, 3),
        Color::White
    ));
}

#[test]
fn detects_knight_attacks_from_center_and_edge() {
    let pos = parse_pos("4k3/8/8/8/3N4/8/8/4K3 w - - 0 1");

    assert!(is_square_attacked(
        &pos,
        Square::from_file_rank(4, 5),
        Color::White
    ));
    assert!(is_square_attacked(
        &pos,
        Square::from_file_rank(1, 4),
        Color::White
    ));
    assert!(!is_square_attacked(
        &pos,
        Square::from_file_rank(4, 4),
        Color::White
    ));

    let edge = parse_pos("4k3/8/8/8/8/8/8/N3K3 w - - 0 1");
    assert!(is_square_attacked(
        &edge,
        Square::from_file_rank(1, 2),
        Color::White
    ));
    assert!(is_square_attacked(
        &edge,
        Square::from_file_rank(2, 1),
        Color::White
    ));
}

#[test]
fn detects_king_attacks_from_center_and_edge() {
    let pos = parse_pos("4k3/8/8/8/3K4/8/8/8 w - - 0 1");

    assert!(is_square_attacked(
        &pos,
        Square::from_file_rank(4, 4),
        Color::White
    ));
    assert!(!is_square_attacked(
        &pos,
        Square::from_file_rank(5, 5),
        Color::White
    ));

    let edge = parse_pos("4k3/8/8/8/8/8/8/K7 w - - 0 1");
    assert!(is_square_attacked(
        &edge,
        Square::from_file_rank(0, 1),
        Color::White
    ));
    assert!(is_square_attacked(
        &edge,
        Square::from_file_rank(1, 0),
        Color::White
    ));
}

#[test]
fn detects_blocked_and_unblocked_bishop_rays() {
    let pos = parse_pos("4k3/8/6B1/8/8/2P5/8/4K3 w - - 0 1");

    assert!(is_square_attacked(
        &pos,
        Square::from_file_rank(4, 3),
        Color::White
    ));
    assert!(!is_square_attacked(
        &pos,
        Square::from_file_rank(1, 1),
        Color::White
    ));
}

#[test]
fn detects_blocked_and_unblocked_rook_rays() {
    let pos = parse_pos("4k3/8/8/4R3/8/4P3/8/K7 w - - 0 1");

    assert!(is_square_attacked(
        &pos,
        Square::from_file_rank(4, 6),
        Color::White
    ));
    assert!(!is_square_attacked(
        &pos,
        Square::from_file_rank(4, 1),
        Color::White
    ));
}

#[test]
fn queen_combines_rook_and_bishop_rays() {
    let pos = parse_pos("4k3/8/8/3Q4/8/8/8/4K3 w - - 0 1");

    assert!(is_square_attacked(
        &pos,
        Square::from_file_rank(3, 7),
        Color::White
    ));
    assert!(is_square_attacked(
        &pos,
        Square::from_file_rank(5, 2),
        Color::White
    ));
}

#[test]
fn in_check_detects_direct_checks_and_ignores_blocked_lines() {
    let checked = parse_pos("4k3/8/8/8/4R3/8/8/4K3 b - - 0 1");
    assert!(in_check(&checked, Color::Black));

    let blocked = parse_pos("4k3/8/4p3/8/4R3/8/8/K7 b - - 0 1");
    assert!(!in_check(&blocked, Color::Black));
}

#[test]
fn start_position_generates_twenty_pseudo_legal_moves() {
    let pos = parse_pos("rnbqkbnr/pppppppp/8/8/8/8/PPPPPPPP/RNBQKBNR w KQkq - 0 1");
    let mut moves = Vec::new();

    generate_pseudo_legal(&pos, &mut moves);

    assert_eq!(moves.len(), 20);
}

#[test]
fn blocked_starting_pieces_do_not_move_through_own_pieces() {
    let pos = parse_pos("rnbqkbnr/pppppppp/8/8/8/8/PPPPPPPP/RNBQKBNR w KQkq - 0 1");
    let mut moves = Vec::new();

    generate_pseudo_legal(&pos, &mut moves);

    assert!(
        !moves
            .iter()
            .any(|mv| mv.from() == Square::from_file_rank(0, 0))
    );
    assert!(
        !moves
            .iter()
            .any(|mv| mv.from() == Square::from_file_rank(2, 0))
    );
    assert!(
        !moves
            .iter()
            .any(|mv| mv.from() == Square::from_file_rank(3, 0))
    );
    assert!(
        !moves
            .iter()
            .any(|mv| mv.from() == Square::from_file_rank(4, 0))
    );
}

#[test]
fn captures_are_generated_against_enemy_pieces_only() {
    let pos = parse_pos("4k3/8/8/5P2/3N4/8/2p1p3/4K3 w - - 0 1");
    let mut moves = Vec::new();

    generate_pseudo_legal(&pos, &mut moves);

    assert!(has_capture(
        &moves,
        Square::from_file_rank(3, 3),
        Square::from_file_rank(2, 1)
    ));
    assert!(has_capture(
        &moves,
        Square::from_file_rank(3, 3),
        Square::from_file_rank(4, 1)
    ));
    assert!(!has_move(
        &moves,
        Square::from_file_rank(3, 3),
        Square::from_file_rank(5, 4)
    ));
}

#[test]
fn pawns_cannot_push_into_occupied_squares() {
    let pos = parse_pos("4k3/8/8/8/8/4p3/4P3/4K3 w - - 0 1");
    let mut moves = Vec::new();

    generate_pseudo_legal(&pos, &mut moves);

    assert!(!has_move(
        &moves,
        Square::from_file_rank(4, 1),
        Square::from_file_rank(4, 2)
    ));
    assert!(!has_move(
        &moves,
        Square::from_file_rank(4, 1),
        Square::from_file_rank(4, 3)
    ));
}

#[test]
fn double_pawn_push_requires_both_path_squares_to_be_empty() {
    let clear = parse_pos("4k3/8/8/8/8/8/4P3/4K3 w - - 0 1");
    let blocked = parse_pos("4k3/8/8/8/4p3/8/4P3/4K3 w - - 0 1");
    let mut moves = Vec::new();

    generate_pseudo_legal(&clear, &mut moves);
    assert!(moves.iter().any(|mv| {
        mv.from() == Square::from_file_rank(4, 1)
            && mv.to() == Square::from_file_rank(4, 3)
            && mv.is_double_pawn_push()
    }));

    generate_pseudo_legal(&blocked, &mut moves);
    assert!(!has_move(
        &moves,
        Square::from_file_rank(4, 1),
        Square::from_file_rank(4, 3)
    ));
}

#[test]
fn quiet_promotions_generate_four_moves() {
    let pos = parse_pos("4k3/P7/8/8/8/8/8/4K3 w - - 0 1");
    let mut moves = Vec::new();

    generate_pseudo_legal(&pos, &mut moves);

    assert_eq!(
        count_promotions(
            &moves,
            Square::from_file_rank(0, 6),
            Square::from_file_rank(0, 7)
        ),
        4
    );
}

#[test]
fn capture_promotions_generate_four_moves_per_target() {
    let pos = parse_pos("r1n1k3/1P6/8/8/8/8/8/4K3 w - - 0 1");
    let mut moves = Vec::new();

    generate_pseudo_legal(&pos, &mut moves);

    assert_eq!(
        moves
            .iter()
            .filter(|mv| mv.from() == Square::from_file_rank(1, 6)
                && mv.to() == Square::from_file_rank(0, 7)
                && mv.promotion().is_some()
                && mv.is_capture())
            .count(),
        4
    );
    assert_eq!(
        moves
            .iter()
            .filter(|mv| mv.from() == Square::from_file_rank(1, 6)
                && mv.to() == Square::from_file_rank(2, 7)
                && mv.promotion().is_some()
                && mv.is_capture())
            .count(),
        4
    );
}

#[test]
fn promotion_rank_push_does_not_generate_non_promotion_move() {
    let pos = parse_pos("4k3/P7/8/8/8/8/8/4K3 w - - 0 1");
    let mut moves = Vec::new();

    generate_pseudo_legal(&pos, &mut moves);

    assert!(!moves.iter().any(|mv| {
        mv.from() == Square::from_file_rank(0, 6)
            && mv.to() == Square::from_file_rank(0, 7)
            && mv.promotion().is_none()
    }));
}

#[test]
fn valid_en_passant_candidate_is_generated() {
    let pos = parse_pos("4k3/8/8/3pP3/8/8/8/4K3 w - d6 0 1");
    let mut moves = Vec::new();

    generate_pseudo_legal(&pos, &mut moves);

    assert!(moves.iter().any(|mv| {
        mv.from() == Square::from_file_rank(4, 4)
            && mv.to() == Square::from_file_rank(3, 5)
            && mv.is_en_passant()
            && mv.is_capture()
    }));
}

#[test]
fn en_passant_is_not_generated_for_wrong_pawn() {
    let pos = parse_pos("4k3/8/8/3p2P1/8/8/8/4K3 w - d6 0 1");
    let mut moves = Vec::new();

    generate_pseudo_legal(&pos, &mut moves);

    assert!(!moves.iter().any(|mv| mv.is_en_passant()));
}

#[test]
fn both_white_castling_sides_can_be_generated() {
    let pos = parse_pos("4k3/8/8/8/8/8/8/R3K2R w KQ - 0 1");
    let mut moves = Vec::new();

    generate_pseudo_legal(&pos, &mut moves);

    assert!(has_castling(
        &moves,
        Square::from_file_rank(4, 0),
        Square::from_file_rank(6, 0)
    ));
    assert!(has_castling(
        &moves,
        Square::from_file_rank(4, 0),
        Square::from_file_rank(2, 0)
    ));
}

#[test]
fn both_black_castling_sides_can_be_generated() {
    let pos = parse_pos("r3k2r/8/8/8/8/8/8/4K3 b kq - 0 1");
    let mut moves = Vec::new();

    generate_pseudo_legal(&pos, &mut moves);

    assert!(has_castling(
        &moves,
        Square::from_file_rank(4, 7),
        Square::from_file_rank(6, 7)
    ));
    assert!(has_castling(
        &moves,
        Square::from_file_rank(4, 7),
        Square::from_file_rank(2, 7)
    ));
}

#[test]
fn blocked_path_prevents_castling() {
    let pos = parse_pos("4k3/8/8/8/8/8/8/R3KB1R w KQ - 0 1");
    let mut moves = Vec::new();

    generate_pseudo_legal(&pos, &mut moves);

    assert!(!has_castling(
        &moves,
        Square::from_file_rank(4, 0),
        Square::from_file_rank(6, 0)
    ));
    assert!(has_castling(
        &moves,
        Square::from_file_rank(4, 0),
        Square::from_file_rank(2, 0)
    ));
}

#[test]
fn missing_rook_prevents_castling() {
    let pos = parse_pos("4k3/8/8/8/8/8/8/4K2R w Q - 0 1");
    let mut moves = Vec::new();

    generate_pseudo_legal(&pos, &mut moves);

    assert!(!has_castling(
        &moves,
        Square::from_file_rank(4, 0),
        Square::from_file_rank(2, 0)
    ));
}

#[test]
fn attacked_origin_transit_or_destination_prevents_castling() {
    let mut moves = Vec::new();

    let origin_attacked = parse_pos("k3r3/8/8/8/8/8/8/R3K2R w KQ - 0 1");
    generate_pseudo_legal(&origin_attacked, &mut moves);
    assert!(!moves.iter().any(|mv| mv.is_castling()));

    let transit_attacked = parse_pos("4k3/8/8/8/2b5/8/8/R3K2R w KQ - 0 1");
    generate_pseudo_legal(&transit_attacked, &mut moves);
    assert!(!has_castling(
        &moves,
        Square::from_file_rank(4, 0),
        Square::from_file_rank(6, 0)
    ));

    let destination_attacked = parse_pos("2r1k3/8/8/8/8/8/8/R3K2R w KQ - 0 1");
    generate_pseudo_legal(&destination_attacked, &mut moves);
    assert!(!has_castling(
        &moves,
        Square::from_file_rank(4, 0),
        Square::from_file_rank(2, 0)
    ));
}

#[test]
fn attacked_rook_square_does_not_prevent_castling() {
    let pos = parse_pos("4k2r/8/8/8/8/8/8/R3K2R w KQ - 0 1");
    let mut moves = Vec::new();

    generate_pseudo_legal(&pos, &mut moves);

    assert!(has_castling(
        &moves,
        Square::from_file_rank(4, 0),
        Square::from_file_rank(6, 0)
    ));
}

#[test]
fn pinned_pieces_cannot_expose_king() {
    let mut pos = parse_pos("k3r3/8/8/8/8/8/4R3/4K3 w - - 0 1");
    let mut moves = Vec::new();

    generate_legal(&mut pos, &mut moves);

    assert!(!has_move(
        &moves,
        Square::from_file_rank(4, 1),
        Square::from_file_rank(3, 1)
    ));
}

#[test]
fn king_cannot_move_into_check() {
    let mut pos = parse_pos("k3r3/8/8/8/8/8/8/4K3 w - - 0 1");
    let mut moves = Vec::new();

    generate_legal(&mut pos, &mut moves);

    assert!(!has_move(
        &moves,
        Square::from_file_rank(4, 0),
        Square::from_file_rank(4, 1)
    ));
}

#[test]
fn side_in_check_must_respond_legally() {
    let mut pos = parse_pos("k3r3/8/8/8/8/8/8/4K1N1 w - - 0 1");
    let mut moves = Vec::new();

    generate_legal(&mut pos, &mut moves);

    assert!(has_move(
        &moves,
        Square::from_file_rank(6, 0),
        Square::from_file_rank(4, 1)
    ));
    assert!(!has_move(
        &moves,
        Square::from_file_rank(6, 0),
        Square::from_file_rank(7, 2)
    ));
}

#[test]
fn double_check_only_allows_king_moves() {
    let mut pos = parse_pos("k3r3/8/8/8/1b6/8/8/4K1N1 w - - 0 1");
    let mut moves = Vec::new();

    generate_legal(&mut pos, &mut moves);

    assert!(
        moves
            .iter()
            .all(|mv| mv.from() == Square::from_file_rank(4, 0))
    );
}

#[test]
fn legal_generation_leaves_position_unchanged() {
    let mut pos = parse_pos("rnbqkbnr/pppppppp/8/8/8/8/PPPPPPPP/RNBQKBNR w KQkq - 0 1");
    let before = pos.clone();
    let mut moves = Vec::new();

    generate_legal(&mut pos, &mut moves);

    assert_eq!(pos, before);
}

#[test]
fn start_position_has_twenty_legal_moves() {
    let mut pos = parse_pos("rnbqkbnr/pppppppp/8/8/8/8/PPPPPPPP/RNBQKBNR w KQkq - 0 1");
    let mut moves = Vec::new();

    generate_legal(&mut pos, &mut moves);

    assert_eq!(moves.len(), 20);
}

#[test]
fn perft_start_position_matches_known_counts() {
    let expected = [(1, 20), (2, 400), (3, 8902), (4, 197_281)];

    for (depth, nodes) in expected {
        let mut pos = parse_pos("rnbqkbnr/pppppppp/8/8/8/8/PPPPPPPP/RNBQKBNR w KQkq - 0 1");
        let before = pos.clone();

        assert_eq!(perft(&mut pos, depth), nodes);
        assert_eq!(pos, before);
    }
}

#[test]
fn perft_kiwipete_matches_known_counts() {
    let expected = [(1, 48), (2, 2039), (3, 97_862)];

    for (depth, nodes) in expected {
        let mut pos =
            parse_pos("r3k2r/p1ppqpb1/bn2pnp1/3PN3/1p2P3/2N2Q1p/PPPBBPPP/R3K2R w KQkq - 0 1");
        let before = pos.clone();

        assert_eq!(perft(&mut pos, depth), nodes);
        assert_eq!(pos, before);
    }
}

#[test]
fn perft_covers_shallow_special_move_position() {
    let mut pos = parse_pos("4k3/P7/8/3pP3/8/8/8/R3K2R w KQ d6 0 1");
    let before = pos.clone();

    assert_eq!(perft(&mut pos, 1), 30);
    assert_eq!(pos, before);
}

// Position 3 from https://www.chessprogramming.org/Perft_Results
#[test]
fn perft_pos3_matches_known_counts() {
    let expected = [(1, 14), (2, 191), (3, 2_812), (4, 43_238), (5, 674_624)];
    for (depth, nodes) in expected {
        let mut pos = parse_pos("8/2p5/3p4/KP5r/1R3p1k/8/4P1P1/8 w - - 0 1");
        let before = pos.clone();
        assert_eq!(perft(&mut pos, depth), nodes);
        assert_eq!(pos, before);
    }
}

#[test]
fn zobrist_hash_invariants_hold_through_shallow_move_trees() {
    let cases = [
        (
            "rnbqkbnr/pppppppp/8/8/8/8/PPPPPPPP/RNBQKBNR w KQkq - 0 1",
            3,
        ),
        (
            "r3k2r/p1ppqpb1/bn2pnp1/3PN3/1p2P3/2N2Q1p/PPPBBPPP/R3K2R w KQkq - 0 1",
            2,
        ),
        ("4k3/P7/8/8/8/8/8/4K3 w - - 0 1", 2),
        ("4k3/8/8/3pP3/8/8/8/4K3 w - d6 0 1", 2),
        ("r3k2r/8/8/8/8/8/8/R3K2R w KQkq - 0 1", 2),
    ];

    for (fen, depth) in cases {
        let mut pos = parse_pos(fen);
        assert_hash_invariants_at_depth(&mut pos, depth);
    }
}
