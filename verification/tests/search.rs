use chesszilla::eval::{evaluate, Score};
use chesszilla::movegen::{generate_legal, in_check};
use chesszilla::mv::Move;
use chesszilla::position::{CastlingRights, Position, State};
use chesszilla::search::{
    capture_victim, material_value_for_ordering, negamax, order_moves, order_moves_with_hash_move,
    order_quiescence_moves, probe_tt, quiescence, quiescence_move_order_score, score_from_tt,
    score_to_tt, search, is_quiescence_move, SearchLimits, TranspositionTable, TtBound, TtEntry, INF, MATE_SCORE,
    TT_MATE_THRESHOLD,
};
use chesszilla::types::{PieceKind, Square};
use std::time::{Duration, Instant};

fn parse_pos(fen: &str) -> Position {
    Position::from_fen(fen).unwrap()
}

fn assert_search_preserves_position(fen: &str, depth: u8) {
    let mut pos = parse_pos(fen);
    let before = pos.clone();

    search(&mut pos, &[], SearchLimits::depth(depth));

    assert_eq!(pos, before);
}

fn has_no_legal_moves(pos: &mut Position) -> bool {
    let mut moves = Vec::new();
    generate_legal(pos, &mut moves);
    moves.is_empty()
}

fn tt_entry(key: u64, depth: u8, score: Score) -> TtEntry {
    tt_entry_with_bound(key, depth, score, TtBound::Exact)
}

fn tt_entry_with_bound(key: u64, depth: u8, score: Score, bound: TtBound) -> TtEntry {
    TtEntry {
        key,
        depth,
        score,
        bound,
        best_move: None,
    }
}

#[test]
fn transposition_table_returns_matching_key() {
    let mut table = TranspositionTable::new(16);
    let entry = tt_entry(42, 3, 100);

    table.store(entry);

    assert_eq!(table.probe(42), Some(entry));
}

#[test]
fn transposition_table_ignores_colliding_non_matching_key() {
    let mut table = TranspositionTable::new(4);

    table.store(tt_entry(1, 3, 100));

    assert_eq!(table.probe(5), None);
}

#[test]
fn transposition_table_replaces_same_key() {
    let mut table = TranspositionTable::new(4);
    let replacement = tt_entry(1, 1, 200);

    table.store(tt_entry(1, 5, 100));
    table.store(replacement);

    assert_eq!(table.probe(1), Some(replacement));
}

#[test]
fn transposition_table_replaces_shallower_collision_with_deeper_entry() {
    let mut table = TranspositionTable::new(4);
    let deeper = tt_entry(5, 4, 200);

    table.store(tt_entry(1, 2, 100));
    table.store(deeper);

    assert_eq!(table.probe(1), None);
    assert_eq!(table.probe(5), Some(deeper));
}

#[test]
fn transposition_table_keeps_deeper_entry_over_shallower_collision() {
    let mut table = TranspositionTable::new(4);
    let deeper = tt_entry(1, 4, 100);

    table.store(deeper);
    table.store(tt_entry(5, 2, 200));

    assert_eq!(table.probe(1), Some(deeper));
    assert_eq!(table.probe(5), None);
}

#[test]
fn tt_score_normalization_leaves_ordinary_scores_unchanged() {
    for score in [-500, 0, 500, TT_MATE_THRESHOLD] {
        let stored = score_to_tt(score, 7);

        assert_eq!(stored, score);
        assert_eq!(score_from_tt(stored, 3), score);
    }
}

#[test]
fn tt_score_normalization_round_trips_winning_mates_across_plies() {
    let root_relative_score = MATE_SCORE - 5;
    let stored = score_to_tt(root_relative_score, 5);

    assert_eq!(stored, MATE_SCORE);
    assert_eq!(score_from_tt(stored, 2), MATE_SCORE - 2);
}

#[test]
fn tt_score_normalization_round_trips_losing_mates_across_plies() {
    let root_relative_score = -MATE_SCORE + 5;
    let stored = score_to_tt(root_relative_score, 5);

    assert_eq!(stored, -MATE_SCORE);
    assert_eq!(score_from_tt(stored, 2), -MATE_SCORE + 2);
}

#[test]
fn tt_probe_returns_exact_deep_enough_entry() {
    let mut table = TranspositionTable::new(16);

    table.store(tt_entry_with_bound(42, 3, 75, TtBound::Exact));

    assert_eq!(probe_tt(&table, 42, 3, -10, 10, 0), Some(75));
}

#[test]
fn tt_probe_ignores_shallow_entry() {
    let mut table = TranspositionTable::new(16);

    table.store(tt_entry_with_bound(42, 2, 75, TtBound::Exact));

    assert_eq!(probe_tt(&table, 42, 3, -10, 10, 0), None);
}

#[test]
fn tt_probe_returns_lower_bound_only_when_it_cuts_off() {
    let mut table = TranspositionTable::new(16);

    table.store(tt_entry_with_bound(42, 3, 75, TtBound::Lower));

    assert_eq!(probe_tt(&table, 42, 3, 0, 50, 0), Some(75));
    assert_eq!(probe_tt(&table, 42, 3, 0, 90, 0), None);
}

#[test]
fn tt_probe_returns_upper_bound_only_when_it_cuts_off() {
    let mut table = TranspositionTable::new(16);

    table.store(tt_entry_with_bound(42, 3, 25, TtBound::Upper));

    assert_eq!(probe_tt(&table, 42, 3, 30, 100, 0), Some(25));
    assert_eq!(probe_tt(&table, 42, 3, 10, 100, 0), None);
}

#[test]
fn negamax_stores_completed_exact_result() {
    let mut pos = parse_pos("4k3/8/8/8/8/8/8/4KQ2 w - - 0 1");
    let key = pos.zobrist;
    let mut history = Vec::new();
    let mut nodes = 0;
    let mut table = TranspositionTable::new(64);

    let score = negamax(
        &mut pos,
        &mut history,
        1,
        -INF,
        INF,
        0,
        &mut nodes,
        None,
        &mut table,
    )
    .expect("search should finish");
    let entry = table.probe(key).expect("expected a stored TT entry");

    assert_eq!(entry.depth, 1);
    assert_eq!(entry.bound, TtBound::Exact);
    assert_eq!(score_from_tt(entry.score, 0), score);
    assert!(entry.best_move.is_some());
}

#[test]
fn negamax_does_not_store_immediate_draw_result() {
    let mut pos = parse_pos("4k3/8/8/8/8/8/8/4KQ2 w - - 100 1");
    let key = pos.zobrist;
    let mut history = Vec::new();
    let mut nodes = 0;
    let mut table = TranspositionTable::new(64);

    let score = negamax(
        &mut pos,
        &mut history,
        1,
        -INF,
        INF,
        0,
        &mut nodes,
        None,
        &mut table,
    );

    assert_eq!(score, Some(0));
    assert_eq!(table.probe(key), None);
}

#[test]
fn depth_zero_returns_eval_and_no_best_move() {
    let mut pos = parse_pos("4k3/8/8/8/8/8/8/4KQ2 w - - 0 1");
    let expected = evaluate(&pos);

    let result = search(&mut pos, &[], SearchLimits::depth(0));

    assert_eq!(result.best_move, None);
    assert_eq!(result.score, expected);
    assert!(result.nodes >= 1);
}

#[test]
fn depth_zero_uses_quiescence_score() {
    let mut pos = parse_pos("4k3/8/8/8/8/3r4/8/3QK3 w - - 0 1");
    let static_eval = evaluate(&pos);

    let result = search(&mut pos, &[], SearchLimits::depth(0));

    assert_eq!(result.best_move, None);
    assert!(result.score > static_eval);
    assert!(result.nodes > 1);
}

#[test]
fn checkmate_terminal_score_is_negative_for_mated_side() {
    let mut pos = parse_pos("7k/6Q1/6K1/8/8/8/8/8 b - - 0 1");

    let result = search(&mut pos, &[], SearchLimits::depth(3));

    assert_eq!(result.best_move, None);
    assert_eq!(result.score, -MATE_SCORE);
}

#[test]
fn depth_one_prefers_winning_capture() {
    let mut pos = parse_pos("4k3/8/8/8/8/5q2/8/4KQ2 w - - 0 1");

    let result = search(&mut pos, &[], SearchLimits::depth(1));

    assert_eq!(
        result.best_move,
        Some(
            Move::new(Square::from_file_rank(5, 0), Square::from_file_rank(5, 2))
                .with_capture()
        )
    );
    assert!(result.score > 800);
}

#[test]
fn depth_one_avoids_protected_capture_after_quiescence_recapture() {
    let mut pos = parse_pos("4k3/8/6b1/8/8/3r4/8/3QK3 w - - 0 1");
    let poisoned_capture =
        Move::new(Square::from_file_rank(3, 0), Square::from_file_rank(3, 2)).with_capture();

    let result = search(&mut pos, &[], SearchLimits::depth(1));

    assert_ne!(result.best_move, Some(poisoned_capture));
    assert!(result.score < 500);
}

#[test]
fn tactical_depth_one_counts_quiescence_nodes() {
    let mut pos = parse_pos("4k3/8/6b1/8/8/3r4/8/3QK3 w - - 0 1");
    let mut legal_moves = Vec::new();
    generate_legal(&mut pos, &mut legal_moves);
    let old_leaf_only_nodes = 1 + legal_moves.len() as u64;

    let result = search(&mut pos, &[], SearchLimits::depth(1));

    assert!(result.nodes > old_leaf_only_nodes);
}

#[test]
fn search_preserves_position_after_completion() {
    assert_search_preserves_position(
        "r3k2r/p1ppqpb1/bn2pnp1/2pP4/1p2P3/2N2N2/PPPB1PPP/R2QKB1R w KQkq c6 0 1",
        3,
    );
}

#[test]
fn stalemate_terminal_score_is_draw() {
    let mut pos = parse_pos("7k/5Q2/6K1/8/8/8/8/8 b - - 0 1");

    let result = search(&mut pos, &[], SearchLimits::depth(3));

    assert_eq!(result.best_move, None);
    assert_eq!(result.score, 0);
}

#[test]
fn fifty_move_rule_scores_as_draw() {
    let mut pos = parse_pos("4k3/8/8/8/8/8/8/4KQ2 w - - 100 1");

    let result = search(&mut pos, &[], SearchLimits::depth(3));

    assert_eq!(result.best_move, None);
    assert_eq!(result.score, 0);
}

#[test]
fn threefold_repetition_scores_as_draw_with_supplied_history() {
    let mut pos = parse_pos("4k1n1/8/8/8/8/8/8/4K1N1 w - - 8 5");
    let history = vec![
        state_with_zobrist(0),
        state_with_zobrist(pos.zobrist),
        state_with_zobrist(1),
        state_with_zobrist(pos.zobrist),
    ];

    let result = search(&mut pos, &history, SearchLimits::depth(3));

    assert_eq!(result.best_move, None);
    assert_eq!(result.score, 0);
}

#[test]
fn mate_in_one_selects_move_that_checkmates() {
    let mut pos = parse_pos("7k/6pp/6QK/8/8/8/8/8 w - - 0 1");

    let result = search(&mut pos, &[], SearchLimits::depth(1));
    let best_move = result.best_move.expect("expected a mate-in-one move");
    let state = pos.make_move(best_move);

    assert!(in_check(&pos, pos.side_to_move));
    assert!(has_no_legal_moves(&mut pos));

    pos.unmake_move(best_move, state);
}

#[test]
fn mate_score_prefers_shorter_mates() {
    let mut mated_at_root = parse_pos("7k/6Q1/6K1/8/8/8/8/8 b - - 0 1");
    let mut mate_in_one = parse_pos("7k/6pp/6QK/8/8/8/8/8 w - - 0 1");

    let root_score = search(&mut mated_at_root, &[], SearchLimits::depth(3)).score;
    let mate_in_one_score = search(&mut mate_in_one, &[], SearchLimits::depth(3)).score;

    assert_eq!(root_score, -MATE_SCORE);
    assert_eq!(mate_in_one_score, MATE_SCORE - 1);
}

#[test]
fn move_ordering_prioritizes_captures_then_promotions() {
    let quiet = Move::new(Square::from_file_rank(4, 1), Square::from_file_rank(4, 3));
    let knight_promotion = Move::with_promotion(
        Square::from_file_rank(0, 6),
        Square::from_file_rank(0, 7),
        PieceKind::Knight,
    );
    let queen_promotion = Move::with_promotion(
        Square::from_file_rank(1, 6),
        Square::from_file_rank(1, 7),
        PieceKind::Queen,
    );
    let capture =
        Move::new(Square::from_file_rank(2, 2), Square::from_file_rank(2, 5)).with_capture();
    let mut moves = [quiet, knight_promotion, queen_promotion, capture];

    order_moves(&mut moves);

    assert_eq!(moves[0], capture);
    assert_eq!(moves[1], queen_promotion);
    assert_eq!(moves[2], knight_promotion);
    assert_eq!(moves[3], quiet);
}

#[test]
fn hash_move_ordering_prioritizes_hash_move() {
    let quiet = Move::new(Square::from_file_rank(4, 1), Square::from_file_rank(4, 3));
    let queen_promotion = Move::with_promotion(
        Square::from_file_rank(1, 6),
        Square::from_file_rank(1, 7),
        PieceKind::Queen,
    );
    let capture =
        Move::new(Square::from_file_rank(2, 2), Square::from_file_rank(2, 5)).with_capture();
    let mut moves = [capture, quiet, queen_promotion];

    order_moves_with_hash_move(&mut moves, Some(quiet));

    assert_eq!(moves[0], quiet);
}

#[test]
fn hash_move_ordering_ignores_missing_hash_move() {
    let quiet = Move::new(Square::from_file_rank(4, 1), Square::from_file_rank(4, 3));
    let queen_promotion = Move::with_promotion(
        Square::from_file_rank(1, 6),
        Square::from_file_rank(1, 7),
        PieceKind::Queen,
    );
    let capture =
        Move::new(Square::from_file_rank(2, 2), Square::from_file_rank(2, 5)).with_capture();
    let missing_hash_move =
        Move::new(Square::from_file_rank(0, 1), Square::from_file_rank(0, 2));
    let mut without_hash = [quiet, queen_promotion, capture];
    let mut with_missing_hash = without_hash;

    order_moves(&mut without_hash);
    order_moves_with_hash_move(&mut with_missing_hash, Some(missing_hash_move));

    assert_eq!(with_missing_hash, without_hash);
}

#[test]
fn hash_move_ordering_preserves_regular_order_for_other_moves() {
    let quiet = Move::new(Square::from_file_rank(4, 1), Square::from_file_rank(4, 3));
    let knight_promotion = Move::with_promotion(
        Square::from_file_rank(0, 6),
        Square::from_file_rank(0, 7),
        PieceKind::Knight,
    );
    let queen_promotion = Move::with_promotion(
        Square::from_file_rank(1, 6),
        Square::from_file_rank(1, 7),
        PieceKind::Queen,
    );
    let capture =
        Move::new(Square::from_file_rank(2, 2), Square::from_file_rank(2, 5)).with_capture();
    let mut moves = [quiet, knight_promotion, queen_promotion, capture];

    order_moves_with_hash_move(&mut moves, Some(quiet));

    assert_eq!(moves[0], quiet);
    assert_eq!(moves[1], capture);
    assert_eq!(moves[2], queen_promotion);
    assert_eq!(moves[3], knight_promotion);
}

#[test]
fn quiescence_ordering_prefers_more_valuable_victim() {
    let pos = parse_pos("4k3/7p/8/3q3Q/4P3/8/8/4K3 w - - 0 1");
    let queen_takes_pawn =
        Move::new(Square::from_file_rank(7, 4), Square::from_file_rank(7, 6)).with_capture();
    let pawn_takes_queen =
        Move::new(Square::from_file_rank(4, 3), Square::from_file_rank(3, 4)).with_capture();
    let mut moves = [queen_takes_pawn, pawn_takes_queen];

    order_quiescence_moves(&pos, &mut moves);

    assert_eq!(moves[0], pawn_takes_queen);
    assert_eq!(moves[1], queen_takes_pawn);
}

#[test]
fn quiescence_ordering_prefers_less_valuable_attacker_for_same_victim() {
    let pos = parse_pos("4k3/8/8/3r3Q/4P3/8/8/4K3 w - - 0 1");
    let queen_takes_rook =
        Move::new(Square::from_file_rank(7, 4), Square::from_file_rank(3, 4)).with_capture();
    let pawn_takes_rook =
        Move::new(Square::from_file_rank(4, 3), Square::from_file_rank(3, 4)).with_capture();
    let mut moves = [queen_takes_rook, pawn_takes_rook];

    order_quiescence_moves(&pos, &mut moves);

    assert_eq!(moves[0], pawn_takes_rook);
    assert_eq!(moves[1], queen_takes_rook);
}

#[test]
fn quiescence_ordering_scores_en_passant_victim_from_capture_square() {
    let pos = parse_pos("4k3/8/8/3pP3/8/8/8/4K3 w - d6 0 1");
    let en_passant =
        Move::new(Square::from_file_rank(4, 4), Square::from_file_rank(3, 5)).with_en_passant();

    assert_eq!(pos.piece_at(en_passant.to()), None);
    assert_eq!(capture_victim(&pos, en_passant), Some(PieceKind::Pawn));
    assert_eq!(
        quiescence_move_order_score(&pos, en_passant),
        10_000 + material_value_for_ordering(PieceKind::Pawn) * 10
            - material_value_for_ordering(PieceKind::Pawn)
    );
}

#[test]
fn quiescence_ordering_preserves_quiet_promotion_value_ordering() {
    let pos = parse_pos("4k3/PP6/8/8/8/8/8/4K3 w - - 0 1");
    let knight_promotion = Move::with_promotion(
        Square::from_file_rank(1, 6),
        Square::from_file_rank(1, 7),
        PieceKind::Knight,
    );
    let queen_promotion = Move::with_promotion(
        Square::from_file_rank(0, 6),
        Square::from_file_rank(0, 7),
        PieceKind::Queen,
    );
    let mut moves = [knight_promotion, queen_promotion];

    order_quiescence_moves(&pos, &mut moves);

    assert_eq!(moves[0], queen_promotion);
    assert_eq!(moves[1], knight_promotion);
}

#[test]
fn quiescence_ordering_adds_promotion_value_to_capture_promotions() {
    let pos = parse_pos("r3k3/1P6/8/3r4/4P3/8/8/4K3 w - - 0 1");
    let pawn_takes_rook =
        Move::new(Square::from_file_rank(4, 3), Square::from_file_rank(3, 4)).with_capture();
    let promoted_pawn_takes_rook = Move::with_promotion(
        Square::from_file_rank(1, 6),
        Square::from_file_rank(0, 7),
        PieceKind::Queen,
    )
    .with_capture();
    let mut moves = [pawn_takes_rook, promoted_pawn_takes_rook];

    order_quiescence_moves(&pos, &mut moves);

    assert_eq!(moves[0], promoted_pawn_takes_rook);
    assert_eq!(moves[1], pawn_takes_rook);
}

#[test]
fn quiescence_moves_include_captures_and_promotions() {
    let capture =
        Move::new(Square::from_file_rank(2, 2), Square::from_file_rank(2, 5)).with_capture();
    let en_passant =
        Move::new(Square::from_file_rank(4, 4), Square::from_file_rank(5, 5)).with_en_passant();
    let quiet_promotion = Move::with_promotion(
        Square::from_file_rank(0, 6),
        Square::from_file_rank(0, 7),
        PieceKind::Queen,
    );
    let capture_promotion = Move::with_promotion(
        Square::from_file_rank(1, 6),
        Square::from_file_rank(2, 7),
        PieceKind::Knight,
    )
    .with_capture();

    assert!(is_quiescence_move(capture));
    assert!(is_quiescence_move(en_passant));
    assert!(is_quiescence_move(quiet_promotion));
    assert!(is_quiescence_move(capture_promotion));
}

#[test]
fn quiescence_moves_exclude_ordinary_quiets_and_castling() {
    let quiet = Move::new(Square::from_file_rank(4, 1), Square::from_file_rank(4, 3));
    let castling =
        Move::new(Square::from_file_rank(4, 0), Square::from_file_rank(6, 0)).with_castling();

    assert!(!is_quiescence_move(quiet));
    assert!(!is_quiescence_move(castling));
}

#[test]
fn quiescence_stand_pat_returns_static_eval_in_quiet_position() {
    let mut pos = parse_pos("4k3/8/8/8/8/8/8/4KQ2 w - - 0 1");
    let mut history = Vec::new();
    let mut nodes = 0;
    let expected = evaluate(&pos);

    let score = quiescence(&mut pos, &mut history, -INF, INF, 0, &mut nodes, None);

    assert_eq!(score, Some(expected));
    assert_eq!(nodes, 1);
}

#[test]
fn quiescence_scores_draw_as_zero() {
    let mut pos = parse_pos("4k3/8/8/8/8/8/8/4KQ2 w - - 100 1");
    let mut history = Vec::new();
    let mut nodes = 0;

    let score = quiescence(&mut pos, &mut history, -INF, INF, 0, &mut nodes, None);

    assert_eq!(score, Some(0));
    assert_eq!(nodes, 1);
}

#[test]
fn quiescence_returns_none_after_deadline() {
    let mut pos = parse_pos("4k3/8/8/8/8/8/8/4KQ2 w - - 0 1");
    let mut history = Vec::new();
    let mut nodes = 0;

    let score = quiescence(
        &mut pos,
        &mut history,
        -INF,
        INF,
        0,
        &mut nodes,
        Some(Instant::now() - Duration::from_millis(1)),
    );

    assert_eq!(score, None);
    assert_eq!(nodes, 0);
}

#[test]
fn quiescence_preserves_position() {
    let mut pos = parse_pos("4k3/8/8/8/4r3/8/4K3/8 w - - 0 1");
    let before = pos.clone();
    let mut history = Vec::new();
    let mut nodes = 0;

    quiescence(&mut pos, &mut history, -INF, INF, 0, &mut nodes, None);

    assert_eq!(pos, before);
}

#[test]
fn quiescence_searches_winning_capture() {
    let mut pos = parse_pos("4k3/8/8/8/8/3r4/8/3QK3 w - - 0 1");
    let static_eval = evaluate(&pos);
    let mut history = Vec::new();
    let mut nodes = 0;

    let score = quiescence(&mut pos, &mut history, -INF, INF, 0, &mut nodes, None)
        .expect("quiescence should finish");

    assert!(score > static_eval);
    assert!(nodes > 1);
}

#[test]
fn quiescence_sees_recapture_after_capture() {
    let mut pos = parse_pos("4k3/8/8/8/3q4/8/8/4K1B1 w - - 0 1");
    let static_eval = evaluate(&pos);
    let mut history = Vec::new();
    let mut nodes = 0;

    let score = quiescence(&mut pos, &mut history, -INF, INF, 0, &mut nodes, None)
        .expect("quiescence should finish");

    assert!(score > static_eval);
    assert!(nodes > 1);
}

#[test]
fn quiescence_searches_quiet_promotion() {
    let mut pos = parse_pos("4k3/P7/8/8/8/8/8/4K3 w - - 0 1");
    let static_eval = evaluate(&pos);
    let mut history = Vec::new();
    let mut nodes = 0;

    let score = quiescence(&mut pos, &mut history, -INF, INF, 0, &mut nodes, None)
        .expect("quiescence should finish");

    assert!(score > static_eval);
    assert!(score > 800);
    assert!(nodes > 1);
}

#[test]
fn quiescence_preserves_position_after_capture_chain() {
    let mut pos = parse_pos("4k3/8/8/8/3q4/8/8/4K1B1 w - - 0 1");
    let before = pos.clone();
    let mut history = Vec::new();
    let mut nodes = 0;

    quiescence(&mut pos, &mut history, -INF, INF, 0, &mut nodes, None);

    assert_eq!(pos, before);
    assert!(history.is_empty());
}

#[test]
fn quiescence_does_not_stand_pat_in_check() {
    let mut pos = parse_pos("4k3/8/8/8/8/4r3/4K3/8 w - - 0 1");
    let static_eval = evaluate(&pos);
    let mut history = Vec::new();
    let mut nodes = 0;

    let score = quiescence(&mut pos, &mut history, -INF, INF, 0, &mut nodes, None)
        .expect("quiescence should finish");

    assert!(score > static_eval);
    assert!(nodes > 1);
}

#[test]
fn quiescence_searches_quiet_check_evasion() {
    let mut pos = parse_pos("4k3/8/8/8/4r3/8/4K3/8 w - - 0 1");
    let mut history = Vec::new();
    let mut nodes = 0;

    let score = quiescence(&mut pos, &mut history, -INF, INF, 0, &mut nodes, None);

    assert!(score.is_some());
    assert!(nodes > 1);
}

#[test]
fn quiescence_scores_stalemate_as_draw() {
    let mut pos = parse_pos("7k/5Q2/6K1/8/8/8/8/8 b - - 0 1");
    let mut history = Vec::new();
    let mut nodes = 0;

    let score = quiescence(&mut pos, &mut history, -INF, INF, 4, &mut nodes, None);

    assert_eq!(score, Some(0));
}

#[test]
fn quiescence_scores_checkmate_with_ply_adjustment() {
    let mut pos = parse_pos("7k/6Q1/6K1/8/8/8/8/8 b - - 0 1");
    let mut history = Vec::new();
    let mut nodes = 0;

    let score = quiescence(&mut pos, &mut history, -INF, INF, 4, &mut nodes, None);

    assert_eq!(score, Some(-MATE_SCORE + 4));
}

#[test]
fn timed_search_returns_legal_move_from_startpos() {
    let mut pos = parse_pos("rnbqkbnr/pppppppp/8/8/8/8/PPPPPPPP/RNBQKBNR w KQkq - 0 1");
    let deadline = Instant::now() + Duration::from_millis(10);

    let result = search(&mut pos, &[], SearchLimits::timed(64, deadline));

    assert!(result.best_move.is_some());
}

#[test]
fn timed_search_falls_back_after_expired_deadline() {
    let mut pos = parse_pos("rnbqkbnr/pppppppp/8/8/8/8/PPPPPPPP/RNBQKBNR w KQkq - 0 1");
    let deadline = Instant::now() - Duration::from_millis(1);

    let result = search(&mut pos, &[], SearchLimits::timed(64, deadline));

    assert!(result.best_move.is_some());
    assert_eq!(result.nodes, 1);
}

#[test]
fn timed_search_terminal_position_returns_no_move() {
    let mut pos = parse_pos("7k/6Q1/6K1/8/8/8/8/8 b - - 0 1");
    let deadline = Instant::now() + Duration::from_millis(10);

    let result = search(&mut pos, &[], SearchLimits::timed(64, deadline));

    assert_eq!(result.best_move, None);
    assert_eq!(result.score, -MATE_SCORE);
}

fn state_with_zobrist(zobrist: u64) -> State {
    State {
        castling: CastlingRights::EMPTY(),
        ep_square: None,
        halfmove_clock: 0,
        captured: None,
        zobrist,
    }
}
