use chess_engine::ai::AI;
use chess_engine::bitboard::Bitboard;
use chess_engine::chess::Chess;
use chess_engine::piece::Piece;

#[test]
fn piece_values() {
    assert_eq!(Piece::Wpawn.evaluate(), 100);
    assert_eq!(Piece::Bpawn.evaluate(), -100);
    assert_eq!(Piece::Wknight.evaluate(), 300);
    assert_eq!(Piece::Bknight.evaluate(), -300);
    assert_eq!(Piece::Wbishop.evaluate(), 320);
    assert_eq!(Piece::Bbishop.evaluate(), -320);
    assert_eq!(Piece::Wrook.evaluate(), 500);
    assert_eq!(Piece::Brook.evaluate(), -500);
    assert_eq!(Piece::Wqueen.evaluate(), 900);
    assert_eq!(Piece::Bqueen.evaluate(), -900);
    assert_eq!(Piece::Wking.evaluate(), 0);
    assert_eq!(Piece::Empty.evaluate(), 0);
}

#[test]
fn piece_colors_and_opposition() {
    assert!(Piece::Wqueen.is_white());
    assert!(!Piece::Bqueen.is_white());
    assert!(Piece::Wrook.is_opponent(Piece::Bknight));
    assert!(!Piece::Wrook.is_opponent(Piece::Wknight));
    assert!(!Piece::Wrook.is_opponent(Piece::Empty));
    assert!(Piece::Empty.is_opponent_or_empty(Piece::Wrook));
    assert!(Piece::Bpawn.is_opponent_or_empty(Piece::Wrook));
    assert!(!Piece::Wpawn.is_opponent_or_empty(Piece::Wrook));
}

#[test]
fn bitboard_bits() {
    let mut b = Bitboard::empty();
    assert_eq!(b.0, 0);
    b.set_bit(0);
    b.set_bit(63);
    assert!(b.get_bit(0));
    assert!(b.get_bit(63));
    assert!(!b.get_bit(32));
    b.switch_on_index(32);
    assert!(b.get_bit(32));
    let mut c = Bitboard::empty();
    c.switch_on_indices(&vec![1, 2, 3]);
    assert!(c.get_bit(1) && c.get_bit(2) && c.get_bit(3));
    assert!(!c.get_bit(4));
    let d = Bitboard::from_index(17);
    assert_eq!(d.0, 1u64 << 17);
    let e = Bitboard::from_index(64);
    assert_eq!(e.0, 0);
}

#[test]
fn bitboard_ray_runs_between_squares() {
    // ray from a8 (0) to h8 (7): squares 1..=7, origin excluded
    let r = Bitboard::ray(0, 7);
    for i in 1..8 {
        assert!(r.get_bit(i));
    }
    assert!(!r.get_bit(0));
    assert!(!r.get_bit(8));
    // a diagonal: a8 (0) to h1 (63)
    let diag = Bitboard::ray(0, 63);
    assert!(diag.get_bit(9) && diag.get_bit(18) && diag.get_bit(63));
    assert!(!diag.get_bit(1));
    // from == to: no squares at all
    let empty = Bitboard::ray(20, 20);
    assert_eq!(empty.0, 0);
}

#[test]
fn initial_position_layout() {
    let chess = Chess::new();
    assert_eq!(chess.board.len(), 64);
    assert_eq!(chess.board[0], Piece::Brook);
    assert_eq!(chess.board[4], Piece::Bking);
    assert_eq!(chess.board[12], Piece::Bpawn);
    assert_eq!(chess.board[36], Piece::Empty);
    assert_eq!(chess.board[52], Piece::Wpawn);
    assert_eq!(chess.board[60], Piece::Wking);
    assert_eq!(chess.board[63], Piece::Wrook);
    assert!(chess.is_white_turn);
    assert_eq!(chess.en_passant, 64);
    assert_eq!(chess.white_king, 60);
    assert_eq!(chess.black_king, 4);
    assert!(chess.castling.wk && chess.castling.wq && chess.castling.bk && chess.castling.bq);
}

#[test]
fn initial_eval_is_balanced() {
    let chess = Chess::new();
    let ai = AI::new(1);
    assert_eq!(ai.eval(&chess), 0);
}

#[test]
fn perft_small_depths() {
    let mut chess = Chess::new();
    assert_eq!(AI::count_moves(1, &mut chess), 20);
    assert_eq!(AI::count_moves(2, &mut chess), 400);
    assert_eq!(AI::count_moves(3, &mut chess), 8902);
}

#[test]
fn initial_moves_include_knights_and_pawns() {
    let chess = Chess::new();
    let moves = chess.get_all_moves();
    assert_eq!(moves.len(), 20);
    // the b1 knight (57) can reach a3 (40) and c3 (42)
    assert!(moves.contains(&(57, 40)));
    assert!(moves.contains(&(57, 42)));
    // the e2 pawn (52) can push one or two squares
    assert!(moves.contains(&(52, 44)));
    assert!(moves.contains(&(52, 36)));
    // no rook moves exist yet
    assert!(!moves.iter().any(|m| m.0 == 56 || m.0 == 63));
}

#[test]
fn game_is_ongoing_at_start() {
    let chess = Chess::new();
    assert_eq!(chess.is_ending(), 2);
    assert!(!chess.is_insufficient_material());
    assert!(!chess.is_threefold_repetition());
}
