use chesszilla::eval::evaluate;
use chesszilla::position::Position;

const STARTPOS: &str = "rnbqkbnr/pppppppp/8/8/8/8/PPPPPPPP/RNBQKBNR w KQkq - 0 1";

#[test]
fn start_position_evaluates_to_zero() {
    let pos = Position::from_fen(STARTPOS).unwrap();

    assert_eq!(evaluate(&pos), 0);
}

#[test]
fn extra_material_uses_side_to_move_perspective() {
    let white_to_move = Position::from_fen("4k3/8/8/8/8/8/8/4KQ2 w - - 0 1").unwrap();
    let black_to_move = Position::from_fen("4k3/8/8/8/8/8/8/4KQ2 b - - 0 1").unwrap();

    assert!(evaluate(&white_to_move) > 0);
    assert!(evaluate(&black_to_move) < 0);
    assert_eq!(evaluate(&white_to_move), -evaluate(&black_to_move));
}

#[test]
fn mirrored_piece_square_scores_are_equal_and_opposite() {
    let white_piece = Position::from_fen("4k3/8/8/8/8/2N5/8/4K3 w - - 0 1").unwrap();
    let black_piece = Position::from_fen("4k3/8/2n5/8/8/8/8/4K3 w - - 0 1").unwrap();

    assert_eq!(evaluate(&white_piece), -evaluate(&black_piece));
}
