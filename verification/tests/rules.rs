use chess_engine::ai::AI;
use chess_engine::chess::Chess;
use chess_engine::model::CastlingRights;
use chess_engine::piece::Piece;

fn empty_board() -> Vec<Piece> {
    vec![Piece::Empty; 64]
}

fn no_rights() -> CastlingRights {
    CastlingRights { wk: false, wq: false, bk: false, bq: false }
}

fn snapshot(c: &Chess) -> (Vec<Piece>, CastlingRights, u8, bool, u8, u8) {
    (c.board.clone(), c.castling, c.en_passant, c.is_white_turn, c.white_king, c.black_king)
}

fn assert_restored(c: &Chess, s: &(Vec<Piece>, CastlingRights, u8, bool, u8, u8)) {
    assert_eq!(c.board, s.0);
    assert_eq!(c.castling, s.1);
    assert_eq!(c.en_passant, s.2);
    assert_eq!(c.is_white_turn, s.3);
    assert_eq!(c.white_king, s.4);
    assert_eq!(c.black_king, s.5);
}

#[test]
fn apply_undo_restores_every_field() {
    // walk the whole tree two plies deep from the start, undoing as we go
    let mut chess = Chess::new();
    let s0 = snapshot(&chess);
    let moves = chess.get_all_moves();
    assert_eq!(moves.len(), 20);
    for &(f, t) in &moves {
        let rec = chess.move_piece(f, t);
        let s1 = snapshot(&chess);
        let replies = chess.get_all_moves();
        assert_eq!(replies.len(), 20);
        for &(f2, t2) in &replies {
            let rec2 = chess.move_piece(f2, t2);
            chess.undo_move(rec2);
            assert_restored(&chess, &s1);
        }
        chess.undo_move(rec);
        assert_restored(&chess, &s0);
    }
}

#[test]
fn checkmate_boundary() {
    // kings plus a white queen delivering a corner mate: black king h8,
    // white queen g7 guarded by the white king on g6
    let mut board = empty_board();
    board[7] = Piece::Bking;
    board[14] = Piece::Wqueen;
    board[22] = Piece::Wking;
    let chess = Chess::from_setup(board, false, no_rights(), 64, 22, 7).unwrap();
    assert!(chess.is_check(chess.king_loc()));
    let moves = chess.get_all_moves();
    assert!(moves.is_empty());
    assert_eq!(chess.is_ending(), 1);
}

#[test]
fn stalemate_boundary() {
    // black king a8 alone, boxed in by a white queen on b6: no legal move,
    // no check
    let mut board = empty_board();
    board[0] = Piece::Bking;
    board[17] = Piece::Wqueen;
    board[36] = Piece::Wking;
    let chess = Chess::from_setup(board, false, no_rights(), 64, 36, 0).unwrap();
    assert!(!chess.is_check(chess.king_loc()));
    let moves = chess.get_all_moves();
    assert!(moves.is_empty());
    assert_eq!(chess.is_ending(), 0);
}

#[test]
fn en_passant_round_trip() {
    let mut chess = Chess::new();
    chess.move_piece(52, 36); // white e2-e4
    chess.move_piece(8, 16); // black a7-a6
    chess.move_piece(36, 28); // white e4-e5
    let rec_push = chess.move_piece(11, 27); // black d7-d5, over d6
    assert!(!rec_push.en_passant_flag);
    // the passed-over square d6 is the en-passant target
    assert_eq!(chess.en_passant, 19);
    let legal = {
        chess.get_legals(28);
        chess.moves.clone()
    };
    assert!(legal.contains(&19));
    let snap = snapshot(&chess);
    let rec = chess.move_piece(28, 19); // e5xd6 en passant
    assert!(rec.en_passant_flag);
    assert_eq!(rec.captured_piece, Piece::Bpawn);
    // the captured pawn sat on d5, not on the target square
    assert_eq!(chess.board[27], Piece::Empty);
    assert_eq!(chess.board[19], Piece::Wpawn);
    assert_eq!(chess.board[28], Piece::Empty);
    chess.undo_move(rec);
    assert_restored(&chess, &snap);
    assert_eq!(chess.board[27], Piece::Bpawn);
}

#[test]
fn promotion_and_its_undo() {
    let mut board = empty_board();
    board[8] = Piece::Wpawn; // a7
    board[60] = Piece::Wking;
    board[7] = Piece::Bking;
    let mut chess = Chess::from_setup(board, true, no_rights(), 64, 60, 7).unwrap();
    let snap = snapshot(&chess);
    let rec = chess.move_piece(8, 0); // a7-a8, promoting
    assert!(rec.promotion_flag);
    assert_eq!(chess.board[0], Piece::Wqueen);
    assert_eq!(chess.board[8], Piece::Empty);
    chess.undo_move(rec);
    assert_restored(&chess, &snap);
}

#[test]
fn castling_both_sides_generated_and_undone() {
    let mut board = empty_board();
    board[60] = Piece::Wking;
    board[63] = Piece::Wrook;
    board[56] = Piece::Wrook;
    board[4] = Piece::Bking;
    let rights = CastlingRights { wk: true, wq: true, bk: false, bq: false };
    let mut chess = Chess::from_setup(board, true, rights, 64, 60, 4).unwrap();
    chess.get_legals(60);
    let legal = chess.moves.clone();
    assert!(legal.contains(&62));
    assert!(legal.contains(&58));
    let snap = snapshot(&chess);
    let rec = chess.move_piece(60, 62);
    assert!(rec.castle_flag);
    assert_eq!(chess.board[62], Piece::Wking);
    assert_eq!(chess.board[61], Piece::Wrook);
    assert_eq!(chess.board[63], Piece::Empty);
    assert!(!chess.castling.wk && !chess.castling.wq);
    chess.undo_move(rec);
    assert_restored(&chess, &snap);
}

#[test]
fn pinned_knight_has_no_moves() {
    // a black knight on e5 shields its king on e8 from a white rook on e1:
    // the knight is reported pinned and every knight move is filtered out
    let mut board = empty_board();
    board[4] = Piece::Bking;
    board[28] = Piece::Bknight; // e5
    board[60] = Piece::Wrook; // e1
    board[56] = Piece::Wking; // a1
    let mut chess = Chess::from_setup(board, false, no_rights(), 64, 56, 4).unwrap();
    assert!(chess.white_pins.get_bit(28));
    chess.get_legals(28);
    assert!(chess.moves.is_empty());
}

#[test]
fn rook_moves_stop_at_blockers() {
    let mut board = empty_board();
    board[36] = Piece::Wrook; // e4
    board[38] = Piece::Wpawn; // g4 friendly
    board[4] = Piece::Bking;
    board[60] = Piece::Wking;
    board[12] = Piece::Bpawn; // e7 enemy
    let chess = Chess::from_setup(board, true, no_rights(), 64, 60, 4).unwrap();
    let targets = chess.gen_moves_rook(36);
    // to the right: f4 only (g4 is friendly)
    assert!(targets.contains(&37));
    assert!(!targets.contains(&38));
    // upward: e5, e6 and the capture on e7, not beyond
    assert!(targets.contains(&28) && targets.contains(&20) && targets.contains(&12));
    assert!(!targets.contains(&4));
}

#[test]
fn capture_updates_material_eval() {
    let mut board = empty_board();
    board[36] = Piece::Wrook;
    board[12] = Piece::Bpawn;
    board[60] = Piece::Wking;
    board[4] = Piece::Bking;
    let mut chess = Chess::from_setup(board, true, no_rights(), 64, 60, 4).unwrap();
    let ai = AI::new(1);
    assert_eq!(ai.eval(&chess), 400); // rook against pawn, white to move
    chess.move_piece(36, 12); // rook takes the pawn
    assert_eq!(ai.eval(&chess), -500); // from black's view
}

#[test]
fn capture_round_trip() {
    let mut board = empty_board();
    board[36] = Piece::Wrook;
    board[12] = Piece::Bpawn;
    board[60] = Piece::Wking;
    board[4] = Piece::Bking;
    let mut chess = Chess::from_setup(board, true, no_rights(), 64, 60, 4).unwrap();
    let snap = snapshot(&chess);
    let rec = chess.move_piece(36, 12);
    assert_eq!(rec.captured_piece, Piece::Bpawn);
    assert_eq!(chess.board[12], Piece::Wrook);
    assert_eq!(chess.board[36], Piece::Empty);
    chess.undo_move(rec);
    assert_restored(&chess, &snap);
}

#[test]
fn setup_rejects_inconsistent_positions() {
    // king cache pointing at an empty square
    let board = empty_board();
    assert!(Chess::from_setup(board, true, no_rights(), 64, 60, 4).is_none());
    // a board of the wrong size
    let mut short = empty_board();
    short.pop();
    assert!(Chess::from_setup(short, true, no_rights(), 64, 60, 4).is_none());
    // an en-passant target with no pawn behind it
    let mut board3 = empty_board();
    board3[60] = Piece::Wking;
    board3[4] = Piece::Bking;
    assert!(Chess::from_setup(board3.clone(), true, no_rights(), 19, 60, 4).is_none());
    // the same target is fine once the double-pushed pawn stands behind it
    board3[27] = Piece::Bpawn;
    assert!(Chess::from_setup(board3, true, no_rights(), 19, 60, 4).is_some());
}

#[test]
fn rook_capture_clears_the_castling_right() {
    // a black rook takes the h1 rook: white loses the kingside right even
    // though neither the king nor the white rook ever moved
    let mut board = empty_board();
    board[60] = Piece::Wking;
    board[63] = Piece::Wrook;
    board[4] = Piece::Bking;
    board[7] = Piece::Brook;
    let rights = CastlingRights { wk: true, wq: false, bk: true, bq: false };
    let mut chess = Chess::from_setup(board, false, rights, 64, 60, 4).unwrap();
    let rec = chess.move_piece(7, 63);
    assert!(!chess.castling.wk);
    // the moving rook loses its own side's right as well
    assert!(!chess.castling.bk);
    chess.undo_move(rec);
    assert!(chess.castling.wk && chess.castling.bk);
}

#[test]
fn checks_must_be_answered() {
    // white king e1 in check from a black rook on e8: only moves that leave
    // the file, block, or capture are generated
    let mut board = empty_board();
    board[60] = Piece::Wking; // e1
    board[4] = Piece::Brook; // e8
    board[0] = Piece::Bking; // a8
    board[33] = Piece::Wrook; // b4, can block on e4
    // black just "moved": set up with white to move and black's attacks fresh
    let chess = Chess::from_setup(board, true, no_rights(), 64, 60, 0).unwrap();
    assert!(chess.is_check(chess.king_loc()));
    let moves = chess.get_all_moves();
    // king steps off the e-file
    assert!(moves.contains(&(60, 59)));
    assert!(moves.contains(&(60, 61)));
    // the king cannot stay on the file
    assert!(!moves.contains(&(60, 52)));
    // the rook blocks on e4 (36)
    assert!(moves.contains(&(33, 36)));
    // but may not wander off elsewhere while the king is in check
    assert!(!moves.contains(&(33, 25)));
}
