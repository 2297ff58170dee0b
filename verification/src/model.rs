//! The mathematical model of a position, the legality of a move, and the
//! effect of applying and undoing one.

use vstd::prelude::*;
use crate::attacks::{
    attack_mark, bpawn_tbl, checkers, jump_tbl, king_hits, king_off, king_tbl, knight_hits,
    knight_off, knight_tbl, path_clear, pawn_tbl, pin_mask_from, pinned_mark, bishop_rays,
    rook_rays, slider_attack, wpawn_tbl,
};
use crate::geometry::{col_of, on_board, ray_contains, row_of, sq_at, step_on_board, step_sq};
use crate::piece::{
    enemy_king, is_bishoplike, is_king, is_rooklike, is_slider, is_white_p, opponent,
    opponent_or_empty, Piece,
};

verus! {

/// The four castling rights: white kingside, white queenside, black kingside,
/// black queenside.
#[derive(Debug, Clone, Copy, PartialEq, Eq, Structural)]
pub struct CastlingRights {
    pub wk: bool,
    pub wq: bool,
    pub bk: bool,
    pub bq: bool,
}

/// The game state proper: the fields that determine play.  The cached attack,
/// pin and check boards are deliberately not part of it; they are functions
/// of this state, recomputed after every move.
pub struct GameCore {
    pub board: Seq<Piece>,
    pub castling: CastlingRights,
    /// Square a pawn just passed over, or 64 when there is none.
    pub en_passant: u8,
    pub white_turn: bool,
    pub white_king: u8,
    pub black_king: u8,
}

/// Well-formedness: 64 squares, king caches on the board, and an en-passant
/// target that is consistent: it sits on the capture rank of the side to
/// move, is empty, and the enemy pawn that just double-pushed stands behind
/// it.
pub open spec fn wf(c: GameCore) -> bool {
    let ep = c.en_passant as int;
    &&& c.board.len() == 64
    &&& c.white_king < 64
    &&& c.black_king < 64
    &&& {
        ||| c.en_passant == 64
        ||| (c.white_turn && 16 <= ep < 24 && c.board[ep] == Piece::Empty && c.board[ep + 8]
            == Piece::Bpawn)
        ||| (!c.white_turn && 40 <= ep < 48 && c.board[ep] == Piece::Empty && c.board[ep - 8]
            == Piece::Wpawn)
    }
}

pub open spec fn king_of_stm(c: GameCore) -> u8 {
    if c.white_turn {
        c.white_king
    } else {
        c.black_king
    }
}

/// The side to move is in check: its king square is in the enemy attack set.
pub open spec fn in_check_now(c: GameCore) -> bool {
    attack_mark(c.board, !c.white_turn, king_of_stm(c) as int)
}

// ---------------------------------------------------------------------------
// Pseudo-legal move shapes, one predicate per piece kind.
// ---------------------------------------------------------------------------

pub open spec fn knight_move_ok(b: Seq<Piece>, f: int, t: int) -> bool {
    knight_hits(f, t) && opponent_or_empty(b[t], b[f])
}

/// A ray move: the target is reached over empty squares and is itself empty
/// or holds an enemy piece (a friendly piece blocks exclusively).
pub open spec fn rook_move_ok(b: Seq<Piece>, f: int, t: int) -> bool {
    rook_rays(b, f, t) && (b[t] == Piece::Empty || opponent(b[t], b[f]))
}

pub open spec fn bishop_move_ok(b: Seq<Piece>, f: int, t: int) -> bool {
    bishop_rays(b, f, t) && (b[t] == Piece::Empty || opponent(b[t], b[f]))
}

pub open spec fn pawn_move_ok(c: GameCore, f: int, t: int) -> bool {
    let b = c.board;
    let w = is_white_p(b[f]);
    let fwd = pawn_tbl(w, f, 1);
    let dbl = pawn_tbl(w, f, 0);
    let capl = pawn_tbl(w, f, 2);
    let capr = pawn_tbl(w, f, 3);
    ||| (t == fwd && fwd != 64 && b[fwd] == Piece::Empty)
    ||| (t == dbl && dbl != 64 && fwd != 64 && b[fwd] == Piece::Empty && b[dbl] == Piece::Empty)
    ||| (t == capl && capl != 64 && (opponent(b[capl], b[f]) || c.en_passant == capl))
    ||| (t == capr && capr != 64 && (opponent(b[capr], b[f]) || c.en_passant == capr))
}

/// Castling: the right is held, the king stands on its home square, the
/// squares between king and rook are empty, the rook is home, and neither the
/// king's square nor the two squares it crosses are attacked.
pub open spec fn castle_ok(c: GameCore, f: int, t: int) -> bool {
    let b = c.board;
    if b[f] == Piece::Wking {
        (t == 62 && f == 60 && c.castling.wk && b[61] == Piece::Empty && b[62] == Piece::Empty
            && b[63] == Piece::Wrook && !attack_mark(b, false, 60) && !attack_mark(b, false, 61)
            && !attack_mark(b, false, 62)) || (t == 58 && f == 60 && c.castling.wq && b[59]
            == Piece::Empty && b[58] == Piece::Empty && b[57] == Piece::Empty && b[56]
            == Piece::Wrook && !attack_mark(b, false, 60) && !attack_mark(b, false, 59)
            && !attack_mark(b, false, 58))
    } else if b[f] == Piece::Bking {
        (t == 6 && f == 4 && c.castling.bk && b[5] == Piece::Empty && b[6] == Piece::Empty && b[7]
            == Piece::Brook && !attack_mark(b, true, 4) && !attack_mark(b, true, 5) && !attack_mark(
            b,
            true,
            6,
        )) || (t == 2 && f == 4 && c.castling.bq && b[3] == Piece::Empty && b[2] == Piece::Empty
            && b[1] == Piece::Empty && b[0] == Piece::Brook && !attack_mark(b, true, 4)
            && !attack_mark(b, true, 3) && !attack_mark(b, true, 2))
    } else {
        false
    }
}

pub open spec fn king_move_ok(c: GameCore, f: int, t: int) -> bool {
    (king_hits(f, t) && opponent_or_empty(c.board[t], c.board[f])) || castle_ok(c, f, t)
}

/// The castling destinations in generation order: kingside first, then
/// queenside.
pub open spec fn castle_list(c: GameCore, f: int) -> Seq<u8> {
    let p = c.board[f];
    let ks: Seq<u8> = if p == Piece::Wking && castle_ok(c, f, 62) {
        seq![62u8]
    } else if p == Piece::Bking && castle_ok(c, f, 6) {
        seq![6u8]
    } else {
        Seq::empty()
    };
    let qs: Seq<u8> = if p == Piece::Wking && castle_ok(c, f, 58) {
        seq![58u8]
    } else if p == Piece::Bking && castle_ok(c, f, 2) {
        seq![2u8]
    } else {
        Seq::empty()
    };
    ks + qs
}

/// The king's single-step destinations in table order: the targets of the
/// first `j` table slots that are on the board and not held by a friend.
pub open spec fn king_step_list(b: Seq<Piece>, o: int, j: int) -> Seq<u8>
    decreases j,
{
    if j <= 0 {
        Seq::empty()
    } else {
        let pre = king_step_list(b, o, j - 1);
        let t = king_tbl(o, j - 1);
        if t != 64 && opponent_or_empty(b[t], b[o]) {
            pre.push(t as u8)
        } else {
            pre
        }
    }
}

/// The move obeys the moving piece's movement rules and the occupancy of the
/// board, ignoring king safety.
pub open spec fn pseudo_ok(c: GameCore, f: int, t: int) -> bool {
    let b = c.board;
    let p = b[f];
    if p == Piece::Wking || p == Piece::Bking {
        king_move_ok(c, f, t)
    } else if p == Piece::Wqueen || p == Piece::Bqueen {
        rook_move_ok(b, f, t) || bishop_move_ok(b, f, t)
    } else if p == Piece::Wrook || p == Piece::Brook {
        rook_move_ok(b, f, t)
    } else if p == Piece::Wbishop || p == Piece::Bbishop {
        bishop_move_ok(b, f, t)
    } else if p == Piece::Wknight || p == Piece::Bknight {
        knight_move_ok(b, f, t)
    } else if p == Piece::Wpawn || p == Piece::Bpawn {
        pawn_move_ok(c, f, t)
    } else {
        false
    }
}

// ---------------------------------------------------------------------------
// The legality filter.
// ---------------------------------------------------------------------------

/// King-safety filter over a pseudo-legal move, as the engine decides it from
/// the enemy attack set, the checking pieces and the pin rays.
pub open spec fn filter_ok(c: GameCore, f: int, t: int) -> bool {
    let b = c.board;
    let opp = !c.white_turn;
    let ksq = king_of_stm(c) as int;
    if in_check_now(c) {
        if is_king(b[f]) {
            // the king itself must step out of the attack set
            !attack_mark(b, opp, t)
        } else if checkers(b, opp).len() == 1 {
            let ck = checkers(b, opp)[0] as int;
            if is_slider(b[ck]) {
                // capture the checker or block the ray between king and
                // checker: the destination must lie on that ray
                ray_contains(ksq, ck, t)
            } else {
                t == ck
            }
        } else {
            // double check: only king moves resolve it
            false
        }
    } else {
        if b[f] == (if c.white_turn {
            Piece::Wking
        } else {
            Piece::Bking
        }) {
            !attack_mark(b, opp, t)
        } else if pinned_mark(b, opp, f) {
            // a pinned piece may only move along its pin ray
            pinned_mark(b, opp, t)
        } else {
            true
        }
    }
}

/// A legal move of the side to move: both squares name the board, the moved
/// piece belongs to the mover, the shape is pseudo-legal and the king-safety
/// filter accepts it.
pub open spec fn is_move(c: GameCore, f: int, t: int) -> bool {
    0 <= f < 64 && 0 <= t < 64 && c.board[f] != Piece::Empty && is_white_p(c.board[f])
        == c.white_turn && pseudo_ok(c, f, t) && filter_ok(c, f, t)
}

// ---------------------------------------------------------------------------
// Applying and undoing a move.
// ---------------------------------------------------------------------------

/// The reversible record returned by move application: everything a single
/// undo needs, consumed once and discarded.
#[derive(Debug, Clone, Copy, PartialEq, Eq, Structural)]
pub struct ChessMove {
    pub from: u8,
    pub to: u8,
    /// The move was a castle, so a rook was relocated too.
    pub castle_flag: bool,
    /// The move was an en-passant capture: the captured pawn sat behind `to`.
    pub en_passant_flag: bool,
    /// The moved pawn was replaced by a queen on arrival.
    pub promotion_flag: bool,
    pub captured_piece: Piece,
    /// The mover's king square before the move.
    pub last_king_placement: u8,
    /// All four castling rights before the move.
    pub prior_castling: CastlingRights,
    /// The en-passant target before the move (64 when none).
    pub prior_en_passant: u8,
}

/// The board after moving `f` to `t`: the en-passant victim is lifted, the
/// piece moves (promoting a pawn on the last rank to a queen), and a castling
/// king brings its rook across.
pub open spec fn apply_board(c: GameCore, f: int, t: int) -> Seq<Piece> {
    let b = c.board;
    let p = b[f];
    let b1 = if p == Piece::Wpawn && t == c.en_passant {
        b.update(t + 8, Piece::Empty)
    } else if p == Piece::Bpawn && t == c.en_passant {
        b.update(t - 8, Piece::Empty)
    } else {
        b
    };
    let moved = if p == Piece::Wpawn && t < 8 {
        Piece::Wqueen
    } else if p == Piece::Bpawn && t >= 56 {
        Piece::Bqueen
    } else {
        p
    };
    let b2 = b1.update(f, Piece::Empty).update(t, moved);
    if p == Piece::Bking && f == 4 && t == 6 {
        b2.update(7, Piece::Empty).update(5, Piece::Brook)
    } else if p == Piece::Bking && f == 4 && t == 2 {
        b2.update(0, Piece::Empty).update(3, Piece::Brook)
    } else if p == Piece::Wking && f == 60 && t == 62 {
        b2.update(63, Piece::Empty).update(61, Piece::Wrook)
    } else if p == Piece::Wking && f == 60 && t == 58 {
        b2.update(56, Piece::Empty).update(59, Piece::Wrook)
    } else {
        b2
    }
}

/// A right survives only while it was held and its king and rook still stand
/// on their home squares; rights are never re-granted by play.
pub open spec fn rights_after(b: Seq<Piece>, cr: CastlingRights) -> CastlingRights {
    CastlingRights {
        wk: cr.wk && b[60] == Piece::Wking && b[63] == Piece::Wrook,
        wq: cr.wq && b[60] == Piece::Wking && b[56] == Piece::Wrook,
        bk: cr.bk && b[4] == Piece::Bking && b[7] == Piece::Brook,
        bq: cr.bq && b[4] == Piece::Bking && b[0] == Piece::Brook,
    }
}

/// The next en-passant target: the square passed over by a double pawn push,
/// otherwise none.
pub open spec fn ep_after(c: GameCore, f: int, t: int) -> u8 {
    let p = c.board[f];
    if p == Piece::Wpawn && f - t == 16 {
        (t + 8) as u8
    } else if p == Piece::Bpawn && t - f == 16 {
        (t - 8) as u8
    } else {
        64
    }
}

/// The game state after moving `f` to `t`.
pub open spec fn apply_core(c: GameCore, f: int, t: int) -> GameCore {
    let b3 = apply_board(c, f, t);
    let p = c.board[f];
    GameCore {
        board: b3,
        castling: rights_after(b3, c.castling),
        en_passant: ep_after(c, f, t),
        white_turn: !c.white_turn,
        white_king: if p == Piece::Wking {
            t as u8
        } else {
            c.white_king
        },
        black_king: if p == Piece::Bking {
            t as u8
        } else {
            c.black_king
        },
    }
}

/// The record that the move from `f` to `t` produces.
pub open spec fn make_record(c: GameCore, f: int, t: int) -> ChessMove {
    let b = c.board;
    let p = b[f];
    let ep_cap = (p == Piece::Wpawn || p == Piece::Bpawn) && t == c.en_passant;
    ChessMove {
        from: f as u8,
        to: t as u8,
        castle_flag: (p == Piece::Bking && f == 4 && (t == 6 || t == 2)) || (p == Piece::Wking && f
            == 60 && (t == 62 || t == 58)),
        en_passant_flag: ep_cap,
        promotion_flag: (p == Piece::Wpawn && t < 8) || (p == Piece::Bpawn && t >= 56),
        captured_piece: if ep_cap {
            if p == Piece::Wpawn {
                Piece::Bpawn
            } else {
                Piece::Wpawn
            }
        } else {
            b[t]
        },
        last_king_placement: king_of_stm(c),
        prior_castling: c.castling,
        prior_en_passant: c.en_passant,
    }
}

/// The game state restored from a record: the exact inverse of `apply_core`
/// on the record that the move produced.
pub open spec fn undo_core(c: GameCore, r: ChessMove) -> GameCore {
    let mover_white = !c.white_turn;
    let fr = r.from as int;
    let to = r.to as int;
    let b1 = c.board.update(fr, c.board[to]).update(to, r.captured_piece);
    let b2 = if r.promotion_flag {
        b1.update(
            fr,
            if mover_white {
                Piece::Wpawn
            } else {
                Piece::Bpawn
            },
        )
    } else {
        b1
    };
    let b3 = if r.castle_flag {
        if to == 62 {
            b2.update(61, Piece::Empty).update(63, Piece::Wrook)
        } else if to == 58 {
            b2.update(59, Piece::Empty).update(56, Piece::Wrook)
        } else if to == 6 {
            b2.update(5, Piece::Empty).update(7, Piece::Brook)
        } else {
            b2.update(3, Piece::Empty).update(0, Piece::Brook)
        }
    } else {
        b2
    };
    let b4 = if r.en_passant_flag {
        if mover_white {
            b3.update(to, Piece::Empty).update(to + 8, Piece::Bpawn)
        } else {
            b3.update(to, Piece::Empty).update(to - 8, Piece::Wpawn)
        }
    } else {
        b3
    };
    GameCore {
        board: b4,
        castling: r.prior_castling,
        en_passant: r.prior_en_passant,
        white_turn: mover_white,
        white_king: if mover_white {
            r.last_king_placement
        } else {
            c.white_king
        },
        black_king: if !mover_white {
            r.last_king_placement
        } else {
            c.black_king
        },
    }
}

// ---------------------------------------------------------------------------
// Geometric facts about move targets.
// ---------------------------------------------------------------------------

/// A jump-table target is a distinct on-board square, offset by `(dr, dc)`.
pub proof fn lemma_tbl_target(f: int, t: int, dr: int, dc: int)
    requires
        0 <= f < 64,
        jump_tbl(f, dr, dc) == t,
        t != 64,
        -2 <= dr <= 2,
        -2 <= dc <= 2,
        dr != 0 || dc != 0,
    ensures
        0 <= t < 64,
        t != f,
        row_of(t) == row_of(f) + dr,
        col_of(t) == col_of(f) + dc,
{
    let r = row_of(f);
    let c = col_of(f);
    assert(f == 8 * r + c);
    assert(t == 8 * (r + dr) + (c + dc));
    assert(row_of(t) == r + dr && col_of(t) == c + dc);
}

/// A slider step target is a distinct on-board square.
pub proof fn lemma_step_neq(f: int, t: int, dr: int, dc: int, k: int)
    requires
        0 <= f < 64,
        1 <= k <= 7,
        -1 <= dr <= 1,
        -1 <= dc <= 1,
        dr != 0 || dc != 0,
        step_on_board(f, dr, dc, k),
        t == step_sq(f, dr, dc, k),
    ensures
        0 <= t < 64,
        t != f,
        row_of(t) == row_of(f) + k * dr,
        col_of(t) == col_of(f) + k * dc,
{
    let r = row_of(f);
    let c = col_of(f);
    assert(f == 8 * r + c);
    assert(k * dr == (if dr == 1 {
        k
    } else if dr == -1 {
        -k
    } else {
        0
    })) by (nonlinear_arith)
        requires
            -1 <= dr <= 1,
    ;
    assert(k * dc == (if dc == 1 {
        k
    } else if dc == -1 {
        -k
    } else {
        0
    })) by (nonlinear_arith)
        requires
            -1 <= dc <= 1,
    ;
    let r2 = r + k * dr;
    let c2 = c + k * dc;
    assert(t == 8 * r2 + c2);
    assert(row_of(t) == r2 && col_of(t) == c2);
}

/// A slider attack target is a distinct square.
pub proof fn lemma_ray_target_neq(b: Seq<Piece>, f: int, t: int)
    requires
        0 <= f < 64,
        rook_rays(b, f, t) || bishop_rays(b, f, t),
    ensures
        0 <= t < 64,
        t != f,
{
    if slider_attack(b, f, 0, 1, t) {
        let k = choose|k: int|
            1 <= k <= 7 && #[trigger] step_sq(f, 0, 1, k) == t && step_on_board(f, 0, 1, k)
                && crate::attacks::path_clear(b, f, 0, 1, k);
        lemma_step_neq(f, t, 0, 1, k);
    } else if slider_attack(b, f, 0, -1, t) {
        let k = choose|k: int|
            1 <= k <= 7 && #[trigger] step_sq(f, 0, -1, k) == t && step_on_board(f, 0, -1, k)
                && crate::attacks::path_clear(b, f, 0, -1, k);
        lemma_step_neq(f, t, 0, -1, k);
    } else if slider_attack(b, f, 1, 0, t) {
        let k = choose|k: int|
            1 <= k <= 7 && #[trigger] step_sq(f, 1, 0, k) == t && step_on_board(f, 1, 0, k)
                && crate::attacks::path_clear(b, f, 1, 0, k);
        lemma_step_neq(f, t, 1, 0, k);
    } else if slider_attack(b, f, -1, 0, t) {
        let k = choose|k: int|
            1 <= k <= 7 && #[trigger] step_sq(f, -1, 0, k) == t && step_on_board(f, -1, 0, k)
                && crate::attacks::path_clear(b, f, -1, 0, k);
        lemma_step_neq(f, t, -1, 0, k);
    } else if slider_attack(b, f, 1, 1, t) {
        let k = choose|k: int|
            1 <= k <= 7 && #[trigger] step_sq(f, 1, 1, k) == t && step_on_board(f, 1, 1, k)
                && crate::attacks::path_clear(b, f, 1, 1, k);
        lemma_step_neq(f, t, 1, 1, k);
    } else if slider_attack(b, f, 1, -1, t) {
        let k = choose|k: int|
            1 <= k <= 7 && #[trigger] step_sq(f, 1, -1, k) == t && step_on_board(f, 1, -1, k)
                && crate::attacks::path_clear(b, f, 1, -1, k);
        lemma_step_neq(f, t, 1, -1, k);
    } else if slider_attack(b, f, -1, 1, t) {
        let k = choose|k: int|
            1 <= k <= 7 && #[trigger] step_sq(f, -1, 1, k) == t && step_on_board(f, -1, 1, k)
                && crate::attacks::path_clear(b, f, -1, 1, k);
        lemma_step_neq(f, t, -1, 1, k);
    } else {
        let k = choose|k: int|
            1 <= k <= 7 && #[trigger] step_sq(f, -1, -1, k) == t && step_on_board(f, -1, -1, k)
                && crate::attacks::path_clear(b, f, -1, -1, k);
        lemma_step_neq(f, t, -1, -1, k);
    }
}

/// Applying a legal move to a well-formed position yields a well-formed
/// position: in particular a fresh en-passant target is consistent with the
/// pawn that produced it.
pub proof fn lemma_apply_wf(c: GameCore, f: int, t: int)
    requires
        wf(c),
        is_move(c, f, t),
    ensures
        wf(apply_core(c, f, t)),
{
    let b = c.board;
    let p = b[f];
    let c2 = apply_core(c, f, t);
    if p == Piece::Wpawn && f - t == 16 {
        // a white double push: only the double-push disjunct fits the shape
        assert(t == wpawn_tbl(f, 0) && wpawn_tbl(f, 0) != 64);
        assert(row_of(f) == 6);
        assert(f == 8 * row_of(f) + col_of(f));
        assert(48 <= f < 56);
        assert(b[f - 8] == Piece::Empty && b[t] == Piece::Empty);
        // the prior target, if any, sits on rank 16..24, far from this push
        assert(c.en_passant == 64 || 16 <= c.en_passant < 24);
        assert(c2.en_passant == t + 8 && 40 <= c2.en_passant < 48);
        assert(c2.board[t + 8] == Piece::Empty);
        assert(c2.board[t] == Piece::Wpawn);
    } else if p == Piece::Bpawn && t - f == 16 {
        assert(t == bpawn_tbl(f, 0) && bpawn_tbl(f, 0) != 64);
        assert(row_of(f) == 1);
        assert(f == 8 * row_of(f) + col_of(f));
        assert(8 <= f < 16);
        assert(b[f + 8] == Piece::Empty && b[t] == Piece::Empty);
        assert(c.en_passant == 64 || 40 <= c.en_passant < 48);
        assert(c2.en_passant == t - 8 && 16 <= c2.en_passant < 24);
        assert(c2.board[t - 8] == Piece::Empty);
        assert(c2.board[t] == Piece::Bpawn);
    } else {
        assert(c2.en_passant == 64);
    }
}

/// Undoing a move through its record restores the position exactly: the law
/// of apply-then-undo symmetry over every field of the game state.
pub proof fn lemma_apply_undo(c: GameCore, f: int, t: int)
    requires
        wf(c),
        is_move(c, f, t),
    ensures
        undo_core(apply_core(c, f, t), make_record(c, f, t)) == c,
{
    lemma_move_neq(c, f, t);
    let b = c.board;
    let p = b[f];
    let c2 = apply_core(c, f, t);
    let r = make_record(c, f, t);
    let u = undo_core(c2, r);
    assert(is_white_p(p) == c.white_turn);
    if r.en_passant_flag {
        if p == Piece::Wpawn {
            assert(16 <= t < 24);
            assert(b[t] == Piece::Empty && b[t + 8] == Piece::Bpawn);
            assert(t + 8 != f);  // the square behind the target holds the victim, not the mover
            assert(u.board =~= b);
        } else {
            assert(40 <= t < 48);
            assert(b[t] == Piece::Empty && b[t - 8] == Piece::Wpawn);
            assert(t - 8 != f);
            assert(u.board =~= b);
        }
    } else if r.castle_flag {
        if p == Piece::Wking && t == 62 {
            assert(u.board =~= b);
        } else if p == Piece::Wking && t == 58 {
            assert(u.board =~= b);
        } else if p == Piece::Bking && t == 6 {
            assert(u.board =~= b);
        } else {
            assert(u.board =~= b);
        }
    } else if r.promotion_flag {
        assert(u.board =~= b);
    } else {
        assert(u.board =~= b);
    }
    assert(u == c);
}

/// One direction of the pin argument: on the pin ray from the slider on `o`,
/// the marked piece `s` is the single piece between slider and king, so once
/// it leaves for any square `t` off the mask, the slider's ray to the king is
/// clear.
proof fn lemma_pin_sound_dir(b: Seq<Piece>, w: bool, o: int, dr: int, dc: int, s: int, t: int)
    requires
        b.len() == 64,
        0 <= o < 64,
        crate::attacks::owned_sq(b, w, o),
        -1 <= dr <= 1,
        -1 <= dc <= 1,
        crate::attacks::pin_dir_mask(b, w, o, dr, dc, s),
        0 <= s < 64,
        0 <= t < 64,
        b[s] != Piece::Empty,
        !is_king(b[s]),
        is_white_p(b[s]) != w,
        !crate::attacks::pin_dir_mask(b, w, o, dr, dc, t),
    ensures
        exists|kk: int|
            {
                let ksq = #[trigger] step_sq(o, dr, dc, kk);
                1 <= kk <= 7 && step_on_board(o, dr, dc, kk) && b[ksq] == enemy_king(w) && ksq != s
                    && ksq != t && slider_attack(
                    b.update(s, Piece::Empty).update(t, b[s]),
                    o,
                    dr,
                    dc,
                    ksq,
                )
            },
{
    let (kp, kk) = choose|kp: int, kk: int|
        #[trigger] crate::attacks::pin_pattern(b, w, o, dr, dc, kp, kk) && (s == o || exists|j: int|
            1 <= j <= kk && s == #[trigger] step_sq(o, dr, dc, j));
    assert(s != o);  // the slider belongs to the pinning side, the pinned piece does not
    let j = choose|j: int| 1 <= j <= kk && s == #[trigger] step_sq(o, dr, dc, j);
    assert(j == kp) by {
        if j == kk {
            assert(b[s] == enemy_king(w));
            assert(false);
        } else if j != kp {
            assert(b[s] == Piece::Empty);
            assert(false);
        }
    }
    let ksq = step_sq(o, dr, dc, kk);
    let b2 = b.update(s, Piece::Empty).update(t, b[s]);
    assert(t != o && forall|j2: int| 1 <= j2 <= kk ==> t != #[trigger] step_sq(o, dr, dc, j2)) by {
        if t == o || exists|j2: int| 1 <= j2 <= kk && t == #[trigger] step_sq(o, dr, dc, j2) {
            assert(crate::attacks::pin_dir_mask(b, w, o, dr, dc, t));
            assert(false);
        }
    }
    assert(ksq != s) by {
        if ksq == s {
            assert(b[s] == enemy_king(w));
            assert(false);
        }
    }
    assert(step_on_board(o, dr, dc, kk));
    assert(0 <= ksq < 64);
    assert(b2[ksq] == enemy_king(w));
    assert(path_clear(b2, o, dr, dc, kk)) by {
        assert forall|j2: int| 1 <= j2 < kk implies b2[#[trigger] step_sq(o, dr, dc, j2)]
            == Piece::Empty by {
            let q = step_sq(o, dr, dc, j2);
            assert(step_on_board(o, dr, dc, j2));
            assert(0 <= q < 64);
            assert(q != t);
            if q == s {
                assert(b2[q] == Piece::Empty);
            } else {
                assert(j2 != kp || q == s);
                assert(b[q] == Piece::Empty);
            }
        }
    }
    assert(slider_attack(b2, o, dr, dc, ksq)) by {
        assert(1 <= kk <= 7 && step_sq(o, dr, dc, kk) == ksq && step_on_board(o, dr, dc, kk)
            && path_clear(b2, o, dr, dc, kk));
    }
}

/// The pin restriction is sound: a piece marked pinned that is force-moved to
/// any square off the pin masks leaves its side's king attacked by the side
/// that laid the pin.
#[verifier::rlimit(80)]
pub proof fn lemma_pin_sound(b: Seq<Piece>, w: bool, s: int, t: int)
    requires
        b.len() == 64,
        0 <= s < 64,
        0 <= t < 64,
        pinned_mark(b, w, s),
        b[s] != Piece::Empty,
        !is_king(b[s]),
        is_white_p(b[s]) != w,
        !pinned_mark(b, w, t),
    ensures
        exists|ksq: int|
            0 <= ksq < 64 && #[trigger] b.update(s, Piece::Empty).update(t, b[s])[ksq]
                == enemy_king(w) && crate::attacks::attacked_by(
                b.update(s, Piece::Empty).update(t, b[s]),
                w,
                ksq,
            ),
{
    let o = choose|o: int| #[trigger] crate::attacks::owned_sq(b, w, o) && pin_mask_from(b, w, o, s);
    let b2 = b.update(s, Piece::Empty).update(t, b[s]);
    assert(o != s && o != t) by {
        if o == t {
            // the slider square is part of its own mask
            assert(pinned_mark(b, w, t));
            assert(false);
        }
    }
    assert(b2[o] == b[o]);
    assert(!crate::attacks::pin_mask_from(b, w, o, t)) by {
        if crate::attacks::pin_mask_from(b, w, o, t) {
            assert(pinned_mark(b, w, t));
            assert(false);
        }
    }
    let p = b[o];
    if is_rooklike(p) && crate::attacks::pin_dir_mask(b, w, o, 0, 1, s) {
        lemma_pin_sound_dir(b, w, o, 0, 1, s, t);
        let kk = choose|kk: int|
            {
                let ksq = #[trigger] step_sq(o, 0, 1, kk);
                1 <= kk <= 7 && step_on_board(o, 0, 1, kk) && b[ksq] == enemy_king(w) && ksq != s
                    && ksq != t && slider_attack(b2, o, 0, 1, ksq)
            };
        let ksq = step_sq(o, 0, 1, kk);
        lemma_step_neq(o, ksq, 0, 1, kk);
        assert(crate::attacks::attack_from(b2, o, ksq));
        assert(crate::attacks::owned_sq(b2, w, o) && crate::attacks::attack_from(b2, o, ksq));
        assert(0 <= ksq < 64 && b2[ksq] == enemy_king(w));
    } else if is_rooklike(p) && crate::attacks::pin_dir_mask(b, w, o, 0, -1, s) {
        lemma_pin_sound_dir(b, w, o, 0, -1, s, t);
        let kk = choose|kk: int|
            {
                let ksq = #[trigger] step_sq(o, 0, -1, kk);
                1 <= kk <= 7 && step_on_board(o, 0, -1, kk) && b[ksq] == enemy_king(w) && ksq != s
                    && ksq != t && slider_attack(b2, o, 0, -1, ksq)
            };
        let ksq = step_sq(o, 0, -1, kk);
        lemma_step_neq(o, ksq, 0, -1, kk);
        assert(crate::attacks::owned_sq(b2, w, o) && crate::attacks::attack_from(b2, o, ksq));
        assert(0 <= ksq < 64 && b2[ksq] == enemy_king(w));
    } else if is_rooklike(p) && crate::attacks::pin_dir_mask(b, w, o, 1, 0, s) {
        lemma_pin_sound_dir(b, w, o, 1, 0, s, t);
        let kk = choose|kk: int|
            {
                let ksq = #[trigger] step_sq(o, 1, 0, kk);
                1 <= kk <= 7 && step_on_board(o, 1, 0, kk) && b[ksq] == enemy_king(w) && ksq != s
                    && ksq != t && slider_attack(b2, o, 1, 0, ksq)
            };
        let ksq = step_sq(o, 1, 0, kk);
        lemma_step_neq(o, ksq, 1, 0, kk);
        assert(crate::attacks::owned_sq(b2, w, o) && crate::attacks::attack_from(b2, o, ksq));
        assert(0 <= ksq < 64 && b2[ksq] == enemy_king(w));
    } else if is_rooklike(p) && crate::attacks::pin_dir_mask(b, w, o, -1, 0, s) {
        lemma_pin_sound_dir(b, w, o, -1, 0, s, t);
        let kk = choose|kk: int|
            {
                let ksq = #[trigger] step_sq(o, -1, 0, kk);
                1 <= kk <= 7 && step_on_board(o, -1, 0, kk) && b[ksq] == enemy_king(w) && ksq != s
                    && ksq != t && slider_attack(b2, o, -1, 0, ksq)
            };
        let ksq = step_sq(o, -1, 0, kk);
        lemma_step_neq(o, ksq, -1, 0, kk);
        assert(crate::attacks::owned_sq(b2, w, o) && crate::attacks::attack_from(b2, o, ksq));
        assert(0 <= ksq < 64 && b2[ksq] == enemy_king(w));
    } else if is_bishoplike(p) && crate::attacks::pin_dir_mask(b, w, o, 1, 1, s) {
        lemma_pin_sound_dir(b, w, o, 1, 1, s, t);
        let kk = choose|kk: int|
            {
                let ksq = #[trigger] step_sq(o, 1, 1, kk);
                1 <= kk <= 7 && step_on_board(o, 1, 1, kk) && b[ksq] == enemy_king(w) && ksq != s
                    && ksq != t && slider_attack(b2, o, 1, 1, ksq)
            };
        let ksq = step_sq(o, 1, 1, kk);
        lemma_step_neq(o, ksq, 1, 1, kk);
        assert(crate::attacks::owned_sq(b2, w, o) && crate::attacks::attack_from(b2, o, ksq));
        assert(0 <= ksq < 64 && b2[ksq] == enemy_king(w));
    } else if is_bishoplike(p) && crate::attacks::pin_dir_mask(b, w, o, 1, -1, s) {
        lemma_pin_sound_dir(b, w, o, 1, -1, s, t);
        let kk = choose|kk: int|
            {
                let ksq = #[trigger] step_sq(o, 1, -1, kk);
                1 <= kk <= 7 && step_on_board(o, 1, -1, kk) && b[ksq] == enemy_king(w) && ksq != s
                    && ksq != t && slider_attack(b2, o, 1, -1, ksq)
            };
        let ksq = step_sq(o, 1, -1, kk);
        lemma_step_neq(o, ksq, 1, -1, kk);
        assert(crate::attacks::owned_sq(b2, w, o) && crate::attacks::attack_from(b2, o, ksq));
        assert(0 <= ksq < 64 && b2[ksq] == enemy_king(w));
    } else if is_bishoplike(p) && crate::attacks::pin_dir_mask(b, w, o, -1, 1, s) {
        lemma_pin_sound_dir(b, w, o, -1, 1, s, t);
        let kk = choose|kk: int|
            {
                let ksq = #[trigger] step_sq(o, -1, 1, kk);
                1 <= kk <= 7 && step_on_board(o, -1, 1, kk) && b[ksq] == enemy_king(w) && ksq != s
                    && ksq != t && slider_attack(b2, o, -1, 1, ksq)
            };
        let ksq = step_sq(o, -1, 1, kk);
        lemma_step_neq(o, ksq, -1, 1, kk);
        assert(crate::attacks::owned_sq(b2, w, o) && crate::attacks::attack_from(b2, o, ksq));
        assert(0 <= ksq < 64 && b2[ksq] == enemy_king(w));
    } else {
        lemma_pin_sound_dir(b, w, o, -1, -1, s, t);
        let kk = choose|kk: int|
            {
                let ksq = #[trigger] step_sq(o, -1, -1, kk);
                1 <= kk <= 7 && step_on_board(o, -1, -1, kk) && b[ksq] == enemy_king(w) && ksq != s
                    && ksq != t && slider_attack(b2, o, -1, -1, ksq)
            };
        let ksq = step_sq(o, -1, -1, kk);
        lemma_step_neq(o, ksq, -1, -1, kk);
        assert(crate::attacks::owned_sq(b2, w, o) && crate::attacks::attack_from(b2, o, ksq));
        assert(0 <= ksq < 64 && b2[ksq] == enemy_king(w));
    }
}

/// Castling rights only ever disappear under play: applying a move never
/// re-grants a right (undoing one may, through the record).
pub proof fn lemma_rights_monotone(c: GameCore, f: int, t: int)
    ensures
        apply_core(c, f, t).castling.wk ==> c.castling.wk,
        apply_core(c, f, t).castling.wq ==> c.castling.wq,
        apply_core(c, f, t).castling.bk ==> c.castling.bk,
        apply_core(c, f, t).castling.bq ==> c.castling.bq,
{
}

/// Pawns only ever move toward the enemy back rank.
pub proof fn lemma_pawn_dir(c: GameCore, f: int, t: int)
    requires
        wf(c),
        is_move(c, f, t),
    ensures
        c.board[f] == Piece::Wpawn ==> t < f,
        c.board[f] == Piece::Bpawn ==> f < t,
{
}

/// No move stands still: a legal move always names two distinct squares.
pub proof fn lemma_move_neq(c: GameCore, f: int, t: int)
    requires
        wf(c),
        is_move(c, f, t),
    ensures
        f != t,
{
    let b = c.board;
    let p = b[f];
    if p == Piece::Wking || p == Piece::Bking {
        if castle_ok(c, f, t) {
        } else {
            let j = choose|j: int| 0 <= j < 8 && #[trigger] king_tbl(f, j) == t && t != 64;
            lemma_tbl_target(f, t, king_off(j).0, king_off(j).1);
        }
    } else if p == Piece::Wknight || p == Piece::Bknight {
        let j = choose|j: int| 0 <= j < 8 && #[trigger] knight_tbl(f, j) == t && t != 64;
        lemma_tbl_target(f, t, knight_off(j).0, knight_off(j).1);
    } else if p == Piece::Wpawn || p == Piece::Bpawn {
    } else {
        lemma_ray_target_neq(b, f, t);
    }
}

} // verus!
