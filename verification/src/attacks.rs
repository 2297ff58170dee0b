//! The mathematical model of attacked squares, checking pieces and pins,
//! defined directly over a 64-square board sequence.

use vstd::prelude::*;
use crate::geometry::{col_of, on_board, row_of, sq_at, step_on_board, step_sq};
use crate::piece::{
    enemy_king, is_bishoplike, is_king, is_rooklike, is_white_p, piece_value, Piece,
};

verus! {

// ---------------------------------------------------------------------------
// Jump tables for knight, king and pawn, as closed formulas.  An entry of 64
// means "no target": the step would leave the board.
// ---------------------------------------------------------------------------

pub open spec fn knight_off(j: int) -> (int, int) {
    if j == 0 {
        (-2, -1)
    } else if j == 1 {
        (-1, 2)
    } else if j == 2 {
        (-1, -2)
    } else if j == 3 {
        (2, -1)
    } else if j == 4 {
        (2, 1)
    } else if j == 5 {
        (1, -2)
    } else if j == 6 {
        (1, 2)
    } else {
        (-2, 1)
    }
}

pub open spec fn king_off(j: int) -> (int, int) {
    if j == 0 {
        (-1, -1)
    } else if j == 1 {
        (-1, 0)
    } else if j == 2 {
        (-1, 1)
    } else if j == 3 {
        (0, -1)
    } else if j == 4 {
        (0, 1)
    } else if j == 5 {
        (1, -1)
    } else if j == 6 {
        (1, 0)
    } else {
        (1, 1)
    }
}

pub open spec fn jump_tbl(s: int, dr: int, dc: int) -> int {
    if on_board(row_of(s) + dr, col_of(s) + dc) {
        sq_at(row_of(s) + dr, col_of(s) + dc)
    } else {
        64
    }
}

pub open spec fn knight_tbl(s: int, j: int) -> int {
    jump_tbl(s, knight_off(j).0, knight_off(j).1)
}

pub open spec fn king_tbl(s: int, j: int) -> int {
    jump_tbl(s, king_off(j).0, king_off(j).1)
}

/// Pawn table slots: 0 double push, 1 single push, 2 capture toward column 0,
/// 3 capture toward column 7.  White pawns move toward row 0.
pub open spec fn wpawn_tbl(s: int, j: int) -> int {
    if j == 0 {
        if row_of(s) == 6 {
            s - 16
        } else {
            64
        }
    } else if j == 1 {
        if 8 <= s {
            s - 8
        } else {
            64
        }
    } else if j == 2 {
        if 8 <= s && col_of(s) > 0 {
            s - 9
        } else {
            64
        }
    } else {
        if 8 <= s && col_of(s) < 7 {
            s - 7
        } else {
            64
        }
    }
}

pub open spec fn bpawn_tbl(s: int, j: int) -> int {
    if j == 0 {
        if row_of(s) == 1 {
            s + 16
        } else {
            64
        }
    } else if j == 1 {
        if row_of(s) <= 6 {
            s + 8
        } else {
            64
        }
    } else if j == 2 {
        if row_of(s) <= 6 && col_of(s) > 0 {
            s + 7
        } else {
            64
        }
    } else {
        if row_of(s) <= 6 && col_of(s) < 7 {
            s + 9
        } else {
            64
        }
    }
}

pub open spec fn pawn_tbl(white: bool, s: int, j: int) -> int {
    if white {
        wpawn_tbl(s, j)
    } else {
        bpawn_tbl(s, j)
    }
}

// ---------------------------------------------------------------------------
// Sliding rays.
// ---------------------------------------------------------------------------

/// Squares strictly between the origin and the k-th step are all empty.
pub open spec fn path_clear(b: Seq<Piece>, o: int, dr: int, dc: int, k: int) -> bool {
    forall|j: int| 1 <= j < k ==> b[#[trigger] step_sq(o, dr, dc, j)] == Piece::Empty
}

/// A slider on `o` attacks `t` along direction `(dr, dc)`: `t` is some step
/// along the ray and everything strictly before it is empty, so the first
/// occupied square of the ray is itself attacked (whatever it holds).
pub open spec fn slider_attack(b: Seq<Piece>, o: int, dr: int, dc: int, t: int) -> bool {
    exists|k: int|
        1 <= k <= 7 && #[trigger] step_sq(o, dr, dc, k) == t && step_on_board(o, dr, dc, k)
            && path_clear(b, o, dr, dc, k)
}

pub open spec fn rook_rays(b: Seq<Piece>, o: int, t: int) -> bool {
    slider_attack(b, o, 0, 1, t) || slider_attack(b, o, 0, -1, t) || slider_attack(b, o, 1, 0, t)
        || slider_attack(b, o, -1, 0, t)
}

pub open spec fn bishop_rays(b: Seq<Piece>, o: int, t: int) -> bool {
    slider_attack(b, o, 1, 1, t) || slider_attack(b, o, 1, -1, t) || slider_attack(b, o, -1, 1, t)
        || slider_attack(b, o, -1, -1, t)
}

/// The square one step beyond an enemy king that a slider on `o` checks along
/// `(dr, dc)`: marked attacked so the king cannot retreat along the ray.
pub open spec fn shadow_dir(b: Seq<Piece>, w: bool, o: int, dr: int, dc: int, t: int) -> bool {
    exists|k: int|
        1 <= k <= 6 && #[trigger] step_sq(o, dr, dc, k) == t - dr * 8 - dc && step_on_board(
            o,
            dr,
            dc,
            k,
        ) && step_on_board(o, dr, dc, k + 1) && path_clear(b, o, dr, dc, k) && b[step_sq(
            o,
            dr,
            dc,
            k,
        )] == enemy_king(w) && t == step_sq(o, dr, dc, k + 1)
}

pub open spec fn rook_shadows(b: Seq<Piece>, w: bool, o: int, t: int) -> bool {
    shadow_dir(b, w, o, 0, 1, t) || shadow_dir(b, w, o, 0, -1, t) || shadow_dir(b, w, o, 1, 0, t)
        || shadow_dir(b, w, o, -1, 0, t)
}

pub open spec fn bishop_shadows(b: Seq<Piece>, w: bool, o: int, t: int) -> bool {
    shadow_dir(b, w, o, 1, 1, t) || shadow_dir(b, w, o, 1, -1, t) || shadow_dir(b, w, o, -1, 1, t)
        || shadow_dir(b, w, o, -1, -1, t)
}

pub open spec fn shadow_from(b: Seq<Piece>, w: bool, o: int, t: int) -> bool {
    let p = b[o];
    (is_rooklike(p) && rook_shadows(b, w, o, t)) || (is_bishoplike(p) && bishop_shadows(
        b,
        w,
        o,
        t,
    ))
}

// ---------------------------------------------------------------------------
// Attacks.
// ---------------------------------------------------------------------------

pub open spec fn knight_hits(o: int, t: int) -> bool {
    exists|j: int| 0 <= j < 8 && #[trigger] knight_tbl(o, j) == t && t != 64
}

pub open spec fn king_hits(o: int, t: int) -> bool {
    exists|j: int| 0 <= j < 8 && #[trigger] king_tbl(o, j) == t && t != 64
}

/// Squares a pawn threatens: its two diagonal capture slots only.
pub open spec fn pawn_hits(w: bool, o: int, t: int) -> bool {
    (pawn_tbl(w, o, 2) == t || pawn_tbl(w, o, 3) == t) && t != 64
}

/// The piece standing on `o` threatens square `t` (overshoot excluded).
pub open spec fn attack_from(b: Seq<Piece>, o: int, t: int) -> bool {
    let p = b[o];
    if p == Piece::Wpawn || p == Piece::Bpawn {
        pawn_hits(is_white_p(p), o, t)
    } else if p == Piece::Wknight || p == Piece::Bknight {
        knight_hits(o, t)
    } else if p == Piece::Wking || p == Piece::Bking {
        king_hits(o, t)
    } else if p == Piece::Empty {
        false
    } else {
        (is_rooklike(p) && rook_rays(b, o, t)) || (is_bishoplike(p) && bishop_rays(b, o, t))
    }
}

pub open spec fn owned_sq(b: Seq<Piece>, w: bool, o: int) -> bool {
    0 <= o < 64 && b[o] != Piece::Empty && is_white_p(b[o]) == w
}

pub open spec fn attacked_by(b: Seq<Piece>, w: bool, t: int) -> bool {
    exists|o: int| #[trigger] owned_sq(b, w, o) && attack_from(b, o, t)
}

pub open spec fn shadowed_by(b: Seq<Piece>, w: bool, t: int) -> bool {
    exists|o: int| #[trigger] owned_sq(b, w, o) && shadow_from(b, w, o, t)
}

/// The attacked-square set that side `w` records after moving: every
/// threatened square plus the retreat shadow behind a checked king.
pub open spec fn attack_mark(b: Seq<Piece>, w: bool, t: int) -> bool {
    attacked_by(b, w, t) || shadowed_by(b, w, t)
}

// ---------------------------------------------------------------------------
// Checking pieces.
// ---------------------------------------------------------------------------

pub open spec fn checker_dir(b: Seq<Piece>, w: bool, o: int, dr: int, dc: int) -> bool {
    exists|k: int|
        1 <= k <= 7 && #[trigger] step_on_board(o, dr, dc, k) && path_clear(b, o, dr, dc, k)
            && b[step_sq(o, dr, dc, k)] == enemy_king(w)
}

pub open spec fn rook_checks(b: Seq<Piece>, w: bool, o: int) -> bool {
    checker_dir(b, w, o, 0, 1) || checker_dir(b, w, o, 0, -1) || checker_dir(b, w, o, 1, 0)
        || checker_dir(b, w, o, -1, 0)
}

pub open spec fn bishop_checks(b: Seq<Piece>, w: bool, o: int) -> bool {
    checker_dir(b, w, o, 1, 1) || checker_dir(b, w, o, 1, -1) || checker_dir(b, w, o, -1, 1)
        || checker_dir(b, w, o, -1, -1)
}

/// The piece on `o`, of side `w`, currently gives check to the enemy king.
/// Kings never check.
pub open spec fn is_checker(b: Seq<Piece>, w: bool, o: int) -> bool {
    owned_sq(b, w, o) && {
        let p = b[o];
        if p == Piece::Wpawn || p == Piece::Bpawn {
            exists|t: int| #[trigger] pawn_hits(w, o, t) && 0 <= t < 64 && b[t] == enemy_king(w)
        } else if p == Piece::Wknight || p == Piece::Bknight {
            exists|t: int| #[trigger] knight_hits(o, t) && 0 <= t < 64 && b[t] == enemy_king(w)
        } else if p == Piece::Wking || p == Piece::Bking {
            false
        } else {
            (is_rooklike(p) && rook_checks(b, w, o)) || (is_bishoplike(p) && bishop_checks(
                b,
                w,
                o,
            ))
        }
    }
}

/// The checking pieces of side `w`, listed by ascending origin square.
pub open spec fn checkers_upto(b: Seq<Piece>, w: bool, n: int) -> Seq<u8>
    decreases n,
{
    if n <= 0 {
        Seq::empty()
    } else if is_checker(b, w, n - 1) {
        checkers_upto(b, w, n - 1).push((n - 1) as u8)
    } else {
        checkers_upto(b, w, n - 1)
    }
}

pub open spec fn checkers(b: Seq<Piece>, w: bool) -> Seq<u8> {
    checkers_upto(b, w, 64)
}

pub proof fn lemma_checkers_upto(b: Seq<Piece>, w: bool, n: int)
    requires
        0 <= n <= 64,
    ensures
        forall|i: int|
            0 <= i < checkers_upto(b, w, n).len() ==> {
                let o = #[trigger] checkers_upto(b, w, n)[i];
                o < n && is_checker(b, w, o as int)
            },
        forall|o: int|
            0 <= o < n && is_checker(b, w, o) ==> checkers_upto(b, w, n).contains(o as u8),
        forall|i: int, j: int|
            0 <= i < j < checkers_upto(b, w, n).len() ==> checkers_upto(b, w, n)[i] < checkers_upto(
                b,
                w,
                n,
            )[j],
    decreases n,
{
    if n > 0 {
        lemma_checkers_upto(b, w, n - 1);
        let pre = checkers_upto(b, w, n - 1);
        let cur = checkers_upto(b, w, n);
        assert forall|o: int|
            0 <= o < n && is_checker(b, w, o) implies cur.contains(o as u8) by {
            if o < n - 1 {
                let i = choose|i: int| 0 <= i < pre.len() && pre[i] == o as u8;
                assert(cur[i] == o as u8);
            } else {
                assert(cur[cur.len() - 1] == o as u8);
            }
        }
    }
}

/// A single checker means the listed piece is the unique one.
pub proof fn lemma_single_checker(b: Seq<Piece>, w: bool)
    requires
        checkers(b, w).len() == 1,
    ensures
        is_checker(b, w, checkers(b, w)[0] as int),
        forall|o: int| 0 <= o < 64 && is_checker(b, w, o) ==> o == checkers(b, w)[0] as int,
{
    lemma_checkers_upto(b, w, 64);
    assert forall|o: int|
        0 <= o < 64 && is_checker(b, w, o) implies o == checkers(b, w)[0] as int by {
        assert(checkers(b, w).contains(o as u8));
        let i = choose|i: int| 0 <= i < checkers(b, w).len() && checkers(b, w)[i] == o as u8;
        assert(i == 0);
    }
}

// ---------------------------------------------------------------------------
// Pins.
// ---------------------------------------------------------------------------

/// A slider of side `w` on `o` pins the enemy piece `kp` steps along
/// `(dr, dc)`: the enemy king stands `kk` steps along the same ray and every
/// other square strictly between is empty.
pub open spec fn pin_pattern(
    b: Seq<Piece>,
    w: bool,
    o: int,
    dr: int,
    dc: int,
    kp: int,
    kk: int,
) -> bool {
    1 <= kp < kk <= 7 && (forall|j: int| 1 <= j <= kk ==> #[trigger] step_on_board(o, dr, dc, j))
        && b[step_sq(o, dr, dc, kk)] == enemy_king(w) && b[step_sq(o, dr, dc, kp)] != Piece::Empty
        && !is_king(b[step_sq(o, dr, dc, kp)]) && is_white_p(b[step_sq(o, dr, dc, kp)]) != w && (
    forall|j: int| 1 <= j < kk && j != kp ==> b[#[trigger] step_sq(o, dr, dc, j)] == Piece::Empty)
}

/// Square `s` belongs to the pin mask of a pin along `(dr, dc)` from `o`:
/// the slider's own square and every square of the ray up to the king.
pub open spec fn pin_dir_mask(
    b: Seq<Piece>,
    w: bool,
    o: int,
    dr: int,
    dc: int,
    s: int,
) -> bool {
    exists|kp: int, kk: int|
        #[trigger] pin_pattern(b, w, o, dr, dc, kp, kk) && (s == o || exists|j: int|
            1 <= j <= kk && s == #[trigger] step_sq(o, dr, dc, j))
}

pub open spec fn rook_pin_masks(b: Seq<Piece>, w: bool, o: int, s: int) -> bool {
    pin_dir_mask(b, w, o, 0, 1, s) || pin_dir_mask(b, w, o, 0, -1, s) || pin_dir_mask(
        b,
        w,
        o,
        1,
        0,
        s,
    ) || pin_dir_mask(b, w, o, -1, 0, s)
}

pub open spec fn bishop_pin_masks(b: Seq<Piece>, w: bool, o: int, s: int) -> bool {
    pin_dir_mask(b, w, o, 1, 1, s) || pin_dir_mask(b, w, o, 1, -1, s) || pin_dir_mask(
        b,
        w,
        o,
        -1,
        1,
        s,
    ) || pin_dir_mask(b, w, o, -1, -1, s)
}

pub open spec fn pin_mask_from(b: Seq<Piece>, w: bool, o: int, s: int) -> bool {
    let p = b[o];
    (is_rooklike(p) && rook_pin_masks(b, w, o, s)) || (is_bishoplike(p) && bishop_pin_masks(
        b,
        w,
        o,
        s,
    ))
}

/// Square `s` is marked in side `w`'s pin board: it lies on some pin ray that
/// a slider of `w` lays on the enemy king.
pub open spec fn pinned_mark(b: Seq<Piece>, w: bool, s: int) -> bool {
    exists|o: int| #[trigger] owned_sq(b, w, o) && pin_mask_from(b, w, o, s)
}

// ---------------------------------------------------------------------------
// Material.
// ---------------------------------------------------------------------------

/// Sum of the signed material values of the first `n` squares.
pub open spec fn material_upto(b: Seq<Piece>, n: int) -> int
    decreases n,
{
    if n <= 0 {
        0
    } else {
        material_upto(b, n - 1) + piece_value(b[n - 1])
    }
}

pub open spec fn material(b: Seq<Piece>) -> int {
    material_upto(b, 64)
}

} // verus!
