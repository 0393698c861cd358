use chesszilla::search::SearchLimits;
use chesszilla::types::Color;
use chesszilla::uci::{
    parse_command, run_uci, search_limits_for_go, time_budget_for_go, GoCommand, PositionBase,
    PositionCommand, UciCommand,
};
use std::time::{Duration, Instant};

fn run_script(script: &str) -> String {
    run_uci(script)
}

#[test]
fn parses_simple_commands() {
    assert_eq!(parse_command("uci"), UciCommand::Uci);
    assert_eq!(parse_command("isready"), UciCommand::IsReady);
    assert_eq!(parse_command("ucinewgame"), UciCommand::UciNewGame);
    assert_eq!(parse_command("stop"), UciCommand::Stop);
    assert_eq!(parse_command("quit"), UciCommand::Quit);
}

#[test]
fn parses_position_startpos() {
    assert_eq!(
        parse_command("position startpos"),
        UciCommand::Position(PositionCommand {
            base: PositionBase::Startpos,
            moves: Vec::new(),
        })
    );
}

#[test]
fn parses_position_startpos_with_moves() {
    assert_eq!(
        parse_command("position startpos moves e2e4 e7e5"),
        UciCommand::Position(PositionCommand {
            base: PositionBase::Startpos,
            moves: vec!["e2e4".to_owned(), "e7e5".to_owned()],
        })
    );
}

#[test]
fn parses_position_fen() {
    assert_eq!(
        parse_command("position fen rnbqkbnr/pppppppp/8/8/8/8/PPPPPPPP/RNBQKBNR w KQkq - 0 1"),
        UciCommand::Position(PositionCommand {
            base: PositionBase::Fen(
                "rnbqkbnr/pppppppp/8/8/8/8/PPPPPPPP/RNBQKBNR w KQkq - 0 1".to_owned()
            ),
            moves: Vec::new(),
        })
    );
}

#[test]
fn parses_position_fen_with_moves() {
    assert_eq!(
        parse_command("position fen 4k3/8/8/8/8/8/8/4K3 w - - 0 1 moves e1e2"),
        UciCommand::Position(PositionCommand {
            base: PositionBase::Fen("4k3/8/8/8/8/8/8/4K3 w - - 0 1".to_owned()),
            moves: vec!["e1e2".to_owned()],
        })
    );
}

#[test]
fn parses_go_depth() {
    assert_eq!(
        parse_command("go depth 4"),
        UciCommand::Go(GoCommand {
            depth: Some(4),
            ..GoCommand::default()
        })
    );
}

#[test]
fn parses_go_movetime() {
    assert_eq!(
        parse_command("go movetime 250"),
        UciCommand::Go(GoCommand {
            movetime_ms: Some(250),
            ..GoCommand::default()
        })
    );
}

#[test]
fn parses_go_clock_fields() {
    assert_eq!(
        parse_command("go wtime 60000 btime 55000 winc 1000 binc 500 movestogo 20"),
        UciCommand::Go(GoCommand {
            wtime_ms: Some(60000),
            btime_ms: Some(55000),
            winc_ms: Some(1000),
            binc_ms: Some(500),
            movestogo: Some(20),
            ..GoCommand::default()
        })
    );
}

#[test]
fn malformed_or_unknown_commands_are_ignored() {
    for line in [
        "",
        "debug on",
        "position",
        "position fen 8/8/8/8/8/8/8/8 w - -",
        "position startpos unexpected",
        "go",
        "go depth nope",
        "go movetime",
    ] {
        assert_eq!(parse_command(line), UciCommand::Ignore);
    }
}

#[test]
fn depth_go_command_maps_to_fixed_depth_search() {
    let go = GoCommand {
        depth: Some(3),
        ..GoCommand::default()
    };

    assert_eq!(
        search_limits_for_go(&go, Color::White, Instant::now()),
        Some(SearchLimits::depth(3))
    );
}

#[test]
fn movetime_budget_uses_safety_margin() {
    let go = GoCommand {
        movetime_ms: Some(50),
        ..GoCommand::default()
    };

    assert_eq!(
        time_budget_for_go(&go, Color::White),
        Some(Duration::from_millis(40))
    );
}

#[test]
fn clock_budget_uses_side_to_move_time_increment_and_movestogo() {
    let go = GoCommand {
        wtime_ms: Some(60000),
        btime_ms: Some(30000),
        winc_ms: Some(1000),
        binc_ms: Some(500),
        movestogo: Some(20),
        ..GoCommand::default()
    };

    assert_eq!(
        time_budget_for_go(&go, Color::White),
        Some(Duration::from_millis(3990))
    );
    assert_eq!(
        time_budget_for_go(&go, Color::Black),
        Some(Duration::from_millis(1990))
    );
}

#[test]
fn clock_budget_defaults_to_thirty_moves() {
    let go = GoCommand {
        wtime_ms: Some(30000),
        ..GoCommand::default()
    };

    assert_eq!(
        time_budget_for_go(&go, Color::White),
        Some(Duration::from_millis(990))
    );
}

#[test]
fn runner_responds_to_uci_and_isready() {
    let output = run_script("uci\nisready\nquit\n");

    assert!(output.contains("id name chesszilla\n"));
    assert!(output.contains("uciok\n"));
    assert!(output.contains("readyok\n"));
}

#[test]
fn runner_searches_startpos_at_fixed_depth() {
    let output = run_script("position startpos\ngo depth 1\nquit\n");

    assert!(output.lines().any(|line| line.starts_with("bestmove ")));
    assert!(!output.contains("bestmove 0000"));
}

#[test]
fn runner_returns_null_move_for_terminal_position() {
    let output = run_script("position fen 7k/6Q1/6K1/8/8/8/8/8 b - - 0 1\ngo depth 1\nquit\n");

    assert!(output.contains("bestmove 0000\n"));
}

#[test]
fn runner_ignores_illegal_position_move_and_keeps_responding() {
    let output = run_script("position startpos moves e2e5\nisready\nquit\n");

    assert!(output.contains("readyok\n"));
}
