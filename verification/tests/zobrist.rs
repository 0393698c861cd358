use chesszilla::mv::Move;
use chesszilla::position::Position;
use chesszilla::types::Square;
use chesszilla::zobrist::{effective_ep_file, hash_position};

const STARTPOS: &str = "rnbqkbnr/pppppppp/8/8/8/8/PPPPPPPP/RNBQKBNR w KQkq - 0 1";

#[test]
fn parsed_start_position_hash_is_nonzero() {
    let pos = Position::from_fen(STARTPOS).unwrap();

    assert_ne!(pos.zobrist, 0);
    assert_eq!(pos.zobrist, hash_position(&pos));
}

#[test]
fn identical_fens_have_identical_hashes() {
    let first = Position::from_fen(STARTPOS).unwrap();
    let second = Position::from_fen(STARTPOS).unwrap();

    assert_eq!(first.zobrist, second.zobrist);
}

#[test]
fn side_to_move_changes_hash() {
    let white = Position::from_fen("4k3/8/8/8/8/8/8/4K3 w - - 0 1").unwrap();
    let black = Position::from_fen("4k3/8/8/8/8/8/8/4K3 b - - 0 1").unwrap();

    assert_ne!(white.zobrist, black.zobrist);
}

#[test]
fn castling_rights_change_hash() {
    let with_rights = Position::from_fen("4k3/8/8/8/8/8/8/R3K2R w KQ - 0 1").unwrap();
    let without_rights = Position::from_fen("4k3/8/8/8/8/8/8/R3K2R w - - 0 1").unwrap();

    assert_ne!(with_rights.zobrist, without_rights.zobrist);
}

#[test]
fn en_passant_state_changes_hash() {
    let with_ep = Position::from_fen("4k3/8/8/3pP3/8/8/8/4K3 w - d6 0 1").unwrap();
    let without_ep = Position::from_fen("4k3/8/8/3pP3/8/8/8/4K3 w - - 0 1").unwrap();

    assert_ne!(with_ep.zobrist, without_ep.zobrist);
}

#[test]
fn non_capturable_en_passant_square_does_not_change_hash() {
    let with_ep = Position::from_fen("4k3/8/8/3p4/8/8/8/4K3 w - d6 0 1").unwrap();
    let without_ep = Position::from_fen("4k3/8/8/3p4/8/8/8/4K3 w - - 0 1").unwrap();

    assert_eq!(effective_ep_file(&with_ep), None);
    assert_eq!(with_ep.zobrist, without_ep.zobrist);
}

#[test]
fn capturable_en_passant_square_changes_hash() {
    let with_ep = Position::from_fen("4k3/8/8/3pP3/8/8/8/4K3 w - d6 0 1").unwrap();
    let without_ep = Position::from_fen("4k3/8/8/3pP3/8/8/8/4K3 w - - 0 1").unwrap();

    assert_eq!(effective_ep_file(&with_ep), Some(3));
    assert_ne!(with_ep.zobrist, without_ep.zobrist);
}

#[test]
fn double_pawn_push_hashes_only_capturable_en_passant_file() {
    let mv = Move::new(Square::from_file_rank(4, 1), Square::from_file_rank(4, 3))
        .with_double_pawn_push();
    let mut non_capturable = Position::from_fen("4k3/8/8/8/8/8/4P3/4K3 w - - 0 1").unwrap();
    let mut capturable = Position::from_fen("4k3/8/8/8/3p4/8/4P3/4K3 w - - 0 1").unwrap();

    non_capturable.make_move(mv);
    capturable.make_move(mv);

    let mut non_capturable_without_ep = non_capturable.clone();
    non_capturable_without_ep.ep_square = None;
    non_capturable_without_ep.zobrist = hash_position(&non_capturable_without_ep);

    let mut capturable_without_ep = capturable.clone();
    capturable_without_ep.ep_square = None;
    capturable_without_ep.zobrist = hash_position(&capturable_without_ep);

    assert_eq!(effective_ep_file(&non_capturable), None);
    assert_eq!(non_capturable.zobrist, non_capturable_without_ep.zobrist);
    assert_eq!(effective_ep_file(&capturable), Some(4));
    assert_ne!(capturable.zobrist, capturable_without_ep.zobrist);
}
