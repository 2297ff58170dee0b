use chess_engine::ai::{AI, INFINITY_SCORE};
use chess_engine::chess::Chess;
use chess_engine::model::CastlingRights;
use chess_engine::piece::Piece;

fn empty_board() -> Vec<Piece> {
    vec![Piece::Empty; 64]
}

fn no_rights() -> CastlingRights {
    CastlingRights { wk: false, wq: false, bk: false, bq: false }
}

#[test]
fn search_depth_zero_is_static_eval() {
    let mut chess = Chess::new();
    let ai = AI::new(1);
    let v = ai.search(0, -INFINITY_SCORE, INFINITY_SCORE, &mut chess);
    assert_eq!(v, 0);
}

#[test]
fn best_move_takes_the_hanging_queen() {
    // a white rook on d4 can capture an undefended black queen on d7
    let mut board = empty_board();
    board[35] = Piece::Wrook; // d4
    board[11] = Piece::Bqueen; // d7
    board[63] = Piece::Wking;
    board[0] = Piece::Bking;
    let mut chess = Chess::from_setup(board, true, no_rights(), 64, 63, 0).unwrap();
    let ai = AI::new(2);
    let (f, t) = ai.best_move(&mut chess);
    assert_eq!((f, t), (35, 11));
}

#[test]
fn best_move_finds_mate_in_one() {
    // white to move: the queen on b7 mates on g7 next to the white king
    let mut board = empty_board();
    board[7] = Piece::Bking; // h8
    board[9] = Piece::Wqueen; // b7
    board[22] = Piece::Wking; // g6
    let mut chess = Chess::from_setup(board, true, no_rights(), 64, 22, 7).unwrap();
    let ai = AI::new(2);
    let (f, t) = ai.best_move(&mut chess);
    assert_eq!((f, t), (9, 14));
    chess.move_piece(f, t);
    assert_eq!(chess.is_ending(), 1);
}

#[test]
fn full_window_search_equals_minimax_value() {
    // mate in one: the full-window search scores the position as a win (the
    // mating line is worth the negated forced-loss score)
    let mut board = empty_board();
    board[7] = Piece::Bking;
    board[9] = Piece::Wqueen;
    board[22] = Piece::Wking;
    let mut chess = Chess::from_setup(board, true, no_rights(), 64, 22, 7).unwrap();
    let ai = AI::new(2);
    let v = ai.search(2, -INFINITY_SCORE, INFINITY_SCORE, &mut chess);
    assert_eq!(v, INFINITY_SCORE);
}

#[test]
fn search_value_is_window_independent_inside_the_window() {
    // the same position searched with different windows that both contain the
    // true value must agree: alpha-beta pruning does not change the result
    let mut board = empty_board();
    board[35] = Piece::Wrook;
    board[11] = Piece::Bqueen;
    board[63] = Piece::Wking;
    board[0] = Piece::Bking;
    let mut c1 = Chess::from_setup(board.clone(), true, no_rights(), 64, 63, 0).unwrap();
    let mut c2 = Chess::from_setup(board, true, no_rights(), 64, 63, 0).unwrap();
    let ai = AI::new(2);
    let full = ai.search(2, -INFINITY_SCORE, INFINITY_SCORE, &mut c1);
    let narrow = ai.search(2, -20000, 20000, &mut c2);
    assert_eq!(full, narrow);
    // the queen is won; the rook (500) is the remaining material after the
    // exchange-free capture
    assert_eq!(full, 500);
}

#[test]
fn stalemate_scores_zero_and_mate_scores_minus_infinity() {
    let mut board = empty_board();
    board[0] = Piece::Bking;
    board[17] = Piece::Wqueen;
    board[36] = Piece::Wking;
    let mut stale = Chess::from_setup(board, false, no_rights(), 64, 36, 0).unwrap();
    let ai = AI::new(1);
    assert_eq!(ai.search(3, -INFINITY_SCORE, INFINITY_SCORE, &mut stale), 0);

    let mut board2 = empty_board();
    board2[7] = Piece::Bking;
    board2[14] = Piece::Wqueen;
    board2[22] = Piece::Wking;
    let mut mated = Chess::from_setup(board2, false, no_rights(), 64, 22, 7).unwrap();
    assert_eq!(ai.search(3, -INFINITY_SCORE, INFINITY_SCORE, &mut mated), -INFINITY_SCORE);
}

#[test]
fn best_move_keeps_the_earliest_of_tying_moves() {
    // two white rooks can each take the same hanging pawn for the same score:
    // the move from the earlier origin square is kept
    let mut board = empty_board();
    board[32] = Piece::Wrook; // a4
    board[39] = Piece::Wrook; // h4
    board[35] = Piece::Bpawn; // d4
    board[63] = Piece::Wking;
    board[0] = Piece::Bking;
    let mut chess = Chess::from_setup(board, true, no_rights(), 64, 63, 0).unwrap();
    let ai = AI::new(2);
    let (f, t) = ai.best_move(&mut chess);
    assert_eq!((f, t), (32, 35));
}

#[test]
fn count_moves_depth_zero_is_one() {
    let mut chess = Chess::new();
    assert_eq!(AI::count_moves(0, &mut chess), 1);
}

#[test]
fn perft_depth_four() {
    let mut chess = Chess::new();
    assert_eq!(AI::count_moves(4, &mut chess), 197281);
}
