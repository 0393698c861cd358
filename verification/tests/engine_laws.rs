use chesszilla::eval::evaluate;
use chesszilla::mv::Move;
use chesszilla::game::{Game, STARTPOS_FEN};
use chesszilla::position::{FenError, Position};
use chesszilla::search::{
    deepening_step, order_moves, quiescence, score_from_tt, score_to_tt, search, Deepening, SearchLimits,
    SearchResult, TranspositionTable, TtBound, TtEntry, INF, MATE_SCORE,
};
use chesszilla::types::{PieceKind, Square};
use chesszilla::uci::{parse_command, run_uci, search_limits_for_go, time_budget_for_go, GoCommand, UciCommand};
use chesszilla::types::Color;
use std::time::{Duration, Instant};

fn parse_pos(fen: &str) -> Position {
    Position::from_fen(fen).unwrap()
}

#[test]
fn mirrored_board_with_colors_swapped_negates_evaluation() {
    let upright = parse_pos("r3k3/1p6/8/8/8/8/8/4K2Q w - - 0 1");
    let mirrored = parse_pos("4k2q/8/8/8/8/8/1P6/R3K3 w - - 0 1");

    assert_eq!(evaluate(&upright), -evaluate(&mirrored));
    assert_ne!(evaluate(&upright), 0);
}

#[test]
fn move_ordering_keeps_every_move() {
    let quiet = Move::new(Square::from_file_rank(4, 1), Square::from_file_rank(4, 3));
    let promotion = Move::with_promotion(
        Square::from_file_rank(0, 6),
        Square::from_file_rank(0, 7),
        PieceKind::Rook,
    );
    let capture = Move::new(Square::from_file_rank(2, 2), Square::from_file_rank(2, 5)).with_capture();
    let second_quiet = Move::new(Square::from_file_rank(6, 0), Square::from_file_rank(5, 2));
    let given = [quiet, promotion, second_quiet, capture];
    let mut moves = given;

    order_moves(&mut moves);

    let mut sorted_before: Vec<u32> = given.iter().map(|mv| mv.0).collect();
    let mut sorted_after: Vec<u32> = moves.iter().map(|mv| mv.0).collect();
    sorted_before.sort();
    sorted_after.sort();
    assert_eq!(sorted_before, sorted_after);
    assert_eq!(moves, [capture, promotion, quiet, second_quiet]);
}

#[test]
fn stored_entry_is_found_again_under_its_key() {
    let mut table = TranspositionTable::new(8);
    let entry = TtEntry {
        key: 1234,
        depth: 2,
        score: -40,
        bound: TtBound::Upper,
        best_move: Some(Move::new(Square::from_file_rank(1, 0), Square::from_file_rank(2, 2))),
    };

    table.store(entry);

    assert_eq!(table.probe(1234), Some(entry));
    assert_eq!(table.probe(1234 + 8), None);
}

#[test]
fn table_with_zero_requested_entries_still_has_one_slot() {
    let mut table = TranspositionTable::new(0);
    let entry = TtEntry { key: 99, depth: 1, score: 5, bound: TtBound::Exact, best_move: None };

    table.store(entry);

    assert_eq!(table.probe(99), Some(entry));
}

#[test]
fn mate_scores_read_back_at_the_storing_ply() {
    for ply in [0, 1, 7, 40] {
        for score in [MATE_SCORE - 3, -MATE_SCORE + 9, 123, -29_000] {
            assert_eq!(score_from_tt(score_to_tt(score, ply), ply), score);
        }
    }
}

#[test]
fn quiescence_with_full_window_agrees_with_depth_zero_search() {
    let mut pos = parse_pos("4k3/8/8/8/3q4/8/8/4K1B1 w - - 0 1");
    let mut history = Vec::new();
    let mut nodes = 0;

    let direct = quiescence(&mut pos, &mut history, -INF, INF, 0, &mut nodes, None).unwrap();
    let searched = search(&mut pos, &[], SearchLimits::depth(0));

    assert_eq!(direct, searched.score);
}

#[test]
fn depth_one_search_takes_the_hanging_queen() {
    let mut pos = parse_pos("4k3/8/8/8/8/8/3q4/3RK3 w - - 0 1");

    let result = search(&mut pos, &[], SearchLimits::depth(1));

    let best = result.best_move.unwrap();
    assert_eq!(best.to(), Square::from_file_rank(3, 1));
    assert!(best.is_capture());
    assert!(result.score > 500);
}

#[test]
fn search_near_the_move_counter_limit_still_searches() {
    let mut pos = parse_pos("4k3/8/8/8/8/8/8/4KQ2 w - - 0 65535");
    let before = pos.clone();

    let result = search(&mut pos, &[], SearchLimits::depth(3));

    assert!(result.best_move.is_some());
    assert!(result.nodes > 1);
    assert_eq!(pos, before);
}

#[test]
fn quiescence_scores_a_full_move_counter_by_evaluation() {
    let mut pos = parse_pos("4k3/8/8/8/8/8/8/4KQ2 b - - 0 65535");
    let before = pos.clone();
    let mut history = Vec::new();
    let mut nodes = 0u64;

    let score = quiescence(&mut pos, &mut history, -INF, INF, 0, &mut nodes, None);

    assert_eq!(score, Some(evaluate(&before)));
    assert_eq!(nodes, 1);
    assert_eq!(pos, before);
}

#[test]
fn search_near_the_move_counter_limit_scores_a_fifty_move_draw_as_zero() {
    let mut pos = parse_pos("4k3/8/8/8/8/8/8/4KQ2 w - - 100 65500");

    let result = search(&mut pos, &[], SearchLimits::depth(1));

    assert_eq!(result.best_move, None);
    assert_eq!(result.score, 0);
}

#[test]
fn search_with_a_high_move_number_in_a_quiet_ending_still_searches() {
    let mut pos = parse_pos("7k/6pp/6QK/8/8/8/8/8 w - - 0 60000");

    let result = search(&mut pos, &[], SearchLimits::depth(1));

    assert!(result.best_move.is_some());
    assert!(result.nodes > 1);
}

#[test]
fn timed_search_that_runs_out_of_time_leaves_position_unchanged() {
    let mut pos = parse_pos("r3k2r/p1ppqpb1/bn2pnp1/3PN3/1p2P3/2N2Q1p/PPPBBPPP/R3K2R w KQkq - 0 1");
    let before = pos.clone();
    let deadline = Instant::now() + Duration::from_millis(5);

    let result = search(&mut pos, &[], SearchLimits::timed(64, deadline));

    assert!(result.best_move.is_some());
    assert_eq!(pos, before);
}

#[test]
fn runner_reads_crlf_lines_and_a_last_line_without_newline() {
    let output = run_uci("isready\r\nuci");

    assert_eq!(output, "readyok\nid name chesszilla\nid author chesszilla\nuciok\n");
}

#[test]
fn runner_stops_at_quit() {
    let output = run_uci("isready\nquit\nisready\n");

    assert_eq!(output, "readyok\n");
}

#[test]
fn runner_keeps_previous_game_after_illegal_position_move() {
    let output = run_uci("position startpos moves e2e4\nposition startpos moves e2e5\ngo depth 1\n");
    let line = output.lines().find(|line| line.starts_with("bestmove ")).unwrap();
    let from_rank = line.as_bytes()[10];

    assert!(from_rank == b'7' || from_rank == b'8');
}

#[test]
fn runner_without_clock_for_side_to_move_does_not_answer_go() {
    let output = run_uci("position startpos\ngo btime 1000\nisready\n");

    assert_eq!(output, "readyok\n");
}

#[test]
fn runner_answers_null_move_when_en_passant_capture_would_land_on_own_piece() {
    let output = run_uci("position fen 4k3/8/4P3/3P4/8/8/8/4K3 w - e6 0 1\ngo depth 1\n");

    assert_eq!(output, "bestmove 0000\n");
}

#[test]
fn runner_searches_when_own_piece_on_en_passant_square_cannot_be_reached() {
    let output = run_uci("position fen 4k3/8/4P3/8/8/8/8/4K3 w - e6 0 1\ngo depth 1\n");

    assert!(output.starts_with("bestmove "));
    assert!(!output.contains("0000"));
}

#[test]
fn runner_searches_when_en_passant_square_holds_an_enemy_piece() {
    let output = run_uci("position fen 4k3/8/4p3/8/8/8/8/4K3 w - e6 0 1\ngo depth 1\n");

    assert!(output.starts_with("bestmove "));
    assert!(!output.contains("0000"));
}

#[test]
fn runner_ucinewgame_returns_to_start_position() {
    let output = run_uci("position fen 7k/6Q1/6K1/8/8/8/8/8 b - - 0 1\nucinewgame\ngo depth 1\n");

    assert!(output.starts_with("bestmove "));
    assert!(!output.contains("0000"));
}

#[test]
fn go_with_unknown_words_skips_them() {
    assert_eq!(
        parse_command("go infinite depth 2 ponder"),
        UciCommand::Go(GoCommand { depth: Some(2), ..GoCommand::default() })
    );
    assert_eq!(parse_command("go depth 256"), UciCommand::Ignore);
    assert_eq!(parse_command("go depth +3"), UciCommand::Go(GoCommand { depth: Some(3), ..GoCommand::default() }));
}

#[test]
fn clock_budget_edge_cases() {
    let zero_moves_to_go = GoCommand { wtime_ms: Some(1000), movestogo: Some(0), ..GoCommand::default() };
    let empty_clock = GoCommand { wtime_ms: Some(0), ..GoCommand::default() };
    let tiny_movetime = GoCommand { movetime_ms: Some(5), ..GoCommand::default() };

    assert_eq!(time_budget_for_go(&zero_moves_to_go, Color::White), Some(Duration::from_millis(990)));
    assert_eq!(time_budget_for_go(&empty_clock, Color::White), None);
    assert_eq!(time_budget_for_go(&tiny_movetime, Color::Black), Some(Duration::from_millis(1)));
}

#[test]
fn movetime_go_command_maps_to_timed_search() {
    let go = GoCommand { movetime_ms: Some(100), ..GoCommand::default() };
    let now = Instant::now();

    let limits = search_limits_for_go(&go, Color::White, now).unwrap();

    assert_eq!(limits.depth, 64);
    assert_eq!(limits.deadline, Some(now + Duration::from_millis(90)));
}

#[test]
fn fen_error_messages_name_the_field_or_king() {
    assert_eq!(FenError::WrongFieldCount.message(), "FEN must contain exactly six fields");
    assert_eq!(FenError::InvalidEnPassant.message(), "FEN en passant field is invalid");
    assert_eq!(FenError::MissingKing(Color::Black).message(), "FEN is missing a Black king");
    assert_eq!(FenError::TooManyKings(Color::White).message(), "FEN has more than one White king");
}

#[test]
fn start_game_matches_start_fen() {
    let game = Game::startpos();

    assert_eq!(game.pos, Position::from_fen(STARTPOS_FEN).unwrap());
    assert!(game.history.is_empty());
}

fn a_result(with_move: bool, score: i32, nodes: u64) -> SearchResult {
    let best_move = if with_move {
        Some(Move::new(Square::from_file_rank(4, 1), Square::from_file_rank(4, 3)))
    } else {
        None
    };
    SearchResult { best_move, score, nodes }
}

#[test]
fn deepening_goes_on_after_a_finished_depth_with_a_move() {
    let start = Deepening { best: None, next_depth: 1, total_nodes: 0, done: false };
    let next = deepening_step(start, false, Some(a_result(true, 35, 20)), 4);

    assert!(!next.done);
    assert_eq!(next.next_depth, 2);
    assert_eq!(next.total_nodes, 20);
    assert_eq!(next.best, Some(a_result(true, 35, 20)));

    let after = deepening_step(next, false, Some(a_result(true, 10, 400)), 4);
    assert!(!after.done);
    assert_eq!(after.next_depth, 3);
    assert_eq!(after.best, Some(a_result(true, 10, 420)));
}

#[test]
fn deepening_stops_when_the_clock_expires_and_keeps_the_last_answer() {
    let state = Deepening { best: Some(a_result(true, 35, 20)), next_depth: 2, total_nodes: 20, done: false };

    let expired = deepening_step(state, true, None, 4);
    assert!(expired.done);
    assert_eq!(expired.best, Some(a_result(true, 35, 20)));

    let state = Deepening { best: Some(a_result(true, 35, 20)), next_depth: 2, total_nodes: 20, done: false };
    let interrupted = deepening_step(state, false, None, 4);
    assert!(interrupted.done);
    assert_eq!(interrupted.best, Some(a_result(true, 35, 20)));
}

#[test]
fn deepening_stops_at_an_answer_without_a_move_and_at_the_depth_limit() {
    let state = Deepening { best: None, next_depth: 1, total_nodes: 0, done: false };
    let terminal = deepening_step(state, false, Some(a_result(false, -30000, 1)), 4);
    assert!(terminal.done);
    assert_eq!(terminal.best, Some(a_result(false, -30000, 1)));

    let state = Deepening { best: Some(a_result(true, 5, 9)), next_depth: 4, total_nodes: 9, done: false };
    let last = deepening_step(state, false, Some(a_result(true, 7, 11)), 4);
    assert!(last.done);
    assert_eq!(last.best, Some(a_result(true, 7, 20)));
}
